//! Weighted A* over the boards of the puzzle.
//!
//! Every slide costs one. A board is ranked by its cost so far plus `weight` times
//! its estimate; boards leave the queue in rank order, and a board that has
//! been expanded once is never expanded again.

use crate::board::{
    goal_grid, grid_key, grid_wf, lemma_bounded_keys, lemma_key_injective, lemma_run_prefix,
    lemma_run_push, lemma_run_wf, reachable, run, slide, Board, Direction, KEY_LIMIT,
};
use crate::heuristics::Heuristic;
use crate::min_heap::{is_min_entry, MinHeap};
use std::collections::{HashMap, HashSet};
use std::time::{Duration, Instant};
use vstd::multiset::Multiset;
use vstd::prelude::*;
use vstd::relations::injective_on;
use vstd::set_lib::lemma_map_size;

verus! {

/// `std::time::Instant`, a reading of the monotonic clock. Nothing is known of
/// what a reading holds; it is only handed from `clock_now` to `clock_elapsed`.
#[verifier::external_type_specification]
#[verifier::external_body]
pub struct ExInstant(std::time::Instant);

/// What a search cost.
pub struct Stats {
    /// Number of boards expanded.
    pub expanded: usize,
    /// Wall-clock time spent in the search.
    pub runtime: Duration,
}

impl Stats {
    /// Statistics with the given fields.
    pub fn new(expanded: usize, runtime: Duration) -> (stats: Stats)
        ensures
            stats.expanded == expanded,
            stats.runtime == runtime,
    {
        Stats { expanded, runtime }
    }
}

/// `std::time::Instant::now`: the current reading of the monotonic clock. Nothing
/// is claimed of the reading.
#[verifier::external_body]
fn clock_now() -> (now: Instant) {
    Instant::now()
}

/// `std::time::Instant::elapsed`: the time that has passed since `start` was read.
/// Nothing is claimed of the duration.
#[verifier::external_body]
fn clock_elapsed(start: &Instant) -> (elapsed: Duration) {
    start.elapsed()
}

/// How far from the shortest a found plan can be: a plan found under `heuristic`
/// and `weight` is at most `stretch` times as long as any plan that solves the board.
pub open spec fn stretch(heuristic: Heuristic, weight: u32) -> int {
    if heuristic.slope() * weight <= 1 {
        1
    } else {
        heuristic.slope() * weight
    }
}

/// The stretch is 1 under the blind heuristic and under weight 0, where a plan
/// found is therefore a shortest one; else it is twice the weight.
pub proof fn lemma_stretch_cases(heuristic: Heuristic, weight: u32)
    ensures
        stretch(heuristic, weight) >= 1,
        heuristic == Heuristic::Blind || weight == 0 ==> stretch(heuristic, weight) == 1,
        heuristic != Heuristic::Blind && weight > 0 ==> stretch(heuristic, weight) == 2 * weight,
{
}

/// The rank of grid `s` when its cost so far is `cost`.
spec fn rank(heuristic: Heuristic, weight: u32, s: Seq<u8>, cost: int) -> int {
    cost + weight * heuristic.value(s)
}

/// The queue holds grid `s` under priority `p`.
spec fn queued(queue: Multiset<(Board, u64)>, s: Seq<u8>, p: int) -> bool {
    exists|b: Board, r: u64| #[trigger] queue.count((b, r)) > 0 && b@ == s && r == p
}

/// The tables of a search as mathematical values. Boards are filed under their keys.
struct TablesView {
    /// The entries of the priority queue.
    pub queue: Multiset<(Board, u64)>,
    /// Best known cost so far of each board reached.
    pub costs: Map<u64, u64>,
    /// For each board reached but the first, the board it was reached from and the slide made.
    pub parent: Map<u64, (Board, Direction)>,
    /// The boards that have been expanded.
    pub closed: Set<u64>,
    /// The cost that each expanded board had when it was expanded.
    pub settled: Map<u64, int>,
}

/// What a search is asked: where to start, and how to rank.
struct Task {
    /// The board that the search starts from.
    pub start: Board,
    /// The estimate that ranks the boards.
    pub heuristic: Heuristic,
    /// The say that the estimate has in the rank.
    pub weight: u32,
}

/// The stretch of a task's heuristic and weight.
spec fn task_stretch(task: Task) -> int {
    stretch(task.heuristic, task.weight)
}

/// The rank of grid `s` at cost `cost` under a task's heuristic and weight.
spec fn task_rank(task: Task, s: Seq<u8>, cost: int) -> int {
    rank(task.heuristic, task.weight, s, cost)
}

/// Expanded boards have small keys, a cost, and a settled cost no smaller than it.
spec fn closed_ok(v: TablesView) -> bool {
    &&& v.closed.finite()
    &&& v.closed.len() <= KEY_LIMIT
    &&& forall|k: u64| #[trigger]
        v.closed.contains(k) ==> k < KEY_LIMIT && v.costs.contains_key(k)
            && v.settled.contains_key(k) && v.costs[k] <= v.settled[k]
}

/// No cost exceeds the number of expanded boards by more than `slack`.
spec fn costs_bounded(v: TablesView, slack: int) -> bool {
    forall|k: u64| #[trigger] v.costs.contains_key(k) ==> v.costs[k] <= v.closed.len() + slack
}

/// Every entry of the queue is a well-formed board with a cost, queued at no less
/// than its rank (the first board is queued at 0).
spec fn entries_ok(v: TablesView, task: Task) -> bool {
    forall|b: Board, p: u64| #[trigger]
        v.queue.count((b, p)) > 0 ==> b.wf() && v.costs.contains_key(grid_key(b@)) && (b@
            == task.start@ || p >= task_rank(task, b@, v.costs[grid_key(b@)] as int))
}

/// Every board reached and not expanded, but the first board and `current`, is
/// queued at its rank.
spec fn open_queued(v: TablesView, task: Task, current: Option<Seq<u8>>) -> bool {
    forall|s: Seq<u8>|
        grid_wf(s) && v.costs.contains_key(#[trigger] grid_key(s)) && !v.closed.contains(
            grid_key(s),
        ) && s != task.start@ && Some(s) != current ==> queued(
            v.queue,
            s,
            task_rank(task, s, v.costs[grid_key(s)] as int),
        )
}

/// Every neighbour of an expanded board has been reached, at a cost of at most
/// one more than the settled cost of the expanded board.
spec fn successors_known(v: TablesView) -> bool {
    forall|s: Seq<u8>, d: Direction|
        grid_wf(s) && v.closed.contains(grid_key(s)) && (#[trigger] slide(s, d)) is Some ==> {
            let t = slide(s, d).unwrap();
            v.costs.contains_key(grid_key(t)) && v.costs[grid_key(t)] <= v.settled[grid_key(s)] + 1
        }
}

/// The settled cost of an expanded board is within `stretch` of every plan that leads to it.
spec fn settled_bounded(v: TablesView, task: Task) -> bool {
    forall|plan: Seq<Direction>|
        (#[trigger] run(task.start@, plan)) is Some && v.closed.contains(
            grid_key(run(task.start@, plan).unwrap()),
        ) ==> v.settled[grid_key(run(task.start@, plan).unwrap())] <= task_stretch(task) * plan.len()
}

/// Every board reached but the first has a parent of smaller cost from which one
/// slide leads to it.
#[verifier::opaque]
spec fn parents_ok(
    costs: Map<u64, u64>,
    parent: Map<u64, (Board, Direction)>,
    start: Seq<u8>,
) -> bool {
    forall|s: Seq<u8>|
        grid_wf(s) && costs.contains_key(#[trigger] grid_key(s)) && s != start ==> {
            &&& parent.contains_key(grid_key(s))
            &&& parent[grid_key(s)].0.wf()
            &&& slide(parent[grid_key(s)].0@, parent[grid_key(s)].1) == Some(s)
            &&& costs.contains_key(grid_key(parent[grid_key(s)].0@))
            &&& costs[grid_key(parent[grid_key(s)].0@)] < costs[grid_key(s)]
        }
}

/// `plan` leads from `start` to the board filed under `k`.
spec fn leads_to_key(start: Seq<u8>, plan: Seq<Direction>, k: u64) -> bool {
    run(start, plan) is Some && grid_key(run(start, plan).unwrap()) == k
}

/// Every board reached is one to which a plan leads from the first board.
spec fn reached_by_plans(costs: Map<u64, u64>, start: Seq<u8>) -> bool {
    forall|k: u64| #[trigger]
        costs.contains_key(k) ==> exists|plan: Seq<Direction>| #[trigger]
            leads_to_key(start, plan, k)
}

/// The well-formed grid filed under `k`.
spec fn grid_of_key(k: u64) -> Seq<u8> {
    choose|s: Seq<u8>| grid_wf(s) && grid_key(s) == k
}

/// The first board has been expanded, or is being expanded, or is all that the queue holds.
spec fn first_ok(v: TablesView, task: Task, current: Option<Seq<u8>>) -> bool {
    ||| v.closed.contains(grid_key(task.start@))
    ||| current == Some(task.start@)
    ||| (current is None && v.closed.len() == 0 && v.queue == Multiset::singleton(
        (task.start, 0u64),
    ))
}

/// What holds of the tables between two steps of the search. While a board is
/// being expanded it is `current`: it has left the queue and is not yet closed.
#[verifier::opaque]
spec fn inv(v: TablesView, task: Task, current: Option<Seq<u8>>) -> bool {
    &&& task.start.wf()
    &&& closed_ok(v)
    &&& costs_bounded(v, if current is Some { 1int } else { 0int })
    &&& v.costs.contains_key(grid_key(task.start@))
    &&& v.costs[grid_key(task.start@)] == 0
    &&& !v.closed.contains(grid_key(goal_grid()))
    &&& entries_ok(v, task)
    &&& open_queued(v, task, current)
    &&& successors_known(v)
    &&& settled_bounded(v, task)
    &&& parents_ok(v.costs, v.parent, task.start@)
    &&& reached_by_plans(v.costs, task.start@)
    &&& first_ok(v, task, current)
}

/// `cost` is within `stretch` of every plan that leads from the first board to `s`.
spec fn within_stretch(task: Task, s: Seq<u8>, cost: int) -> bool {
    forall|plan: Seq<Direction>| #[trigger]
        run(task.start@, plan) == Some(s) ==> cost <= task_stretch(task) * plan.len()
}

/// What the steps of the search read off the invariant.
proof fn lemma_inv_facts(v: TablesView, task: Task, current: Option<Seq<u8>>)
    requires
        inv(v, task, current),
    ensures
        task.start.wf(),
        v.closed.finite(),
        v.closed.len() <= KEY_LIMIT,
        parents_ok(v.costs, v.parent, task.start@),
        v.costs.contains_key(grid_key(task.start@)),
        v.costs[grid_key(task.start@)] == 0,
        current is None && task.start@ == goal_grid() ==> v.closed.len() == 0,
        current is None && v.queue.len() == 0 ==> task.start@ != goal_grid(),
{
    reveal(inv);
    assert(Multiset::singleton((task.start, 0u64)).len() == 1);
}

/// What is known of an entry of the queue.
proof fn lemma_entry_facts(v: TablesView, task: Task, b: Board, p: u64)
    requires
        inv(v, task, None),
        v.queue.count((b, p)) > 0,
    ensures
        b.wf(),
        v.costs.contains_key(grid_key(b@)),
        v.costs[grid_key(b@)] <= v.closed.len(),
        v.queue.remove((b, p)).len() < v.queue.len(),
{
    reveal(inv);
}

/// The parent of a board that has been reached and is not the first.
proof fn lemma_parent_facts(
    costs: Map<u64, u64>,
    parent: Map<u64, (Board, Direction)>,
    start: Seq<u8>,
    s: Seq<u8>,
)
    requires
        parents_ok(costs, parent, start),
        grid_wf(s),
        costs.contains_key(grid_key(s)),
        s != start,
    ensures
        parent.contains_key(grid_key(s)),
        parent[grid_key(s)].0.wf(),
        slide(parent[grid_key(s)].0@, parent[grid_key(s)].1) == Some(s),
        costs.contains_key(grid_key(parent[grid_key(s)].0@)),
        costs[grid_key(parent[grid_key(s)].0@)] < costs[grid_key(s)],
{
    reveal(parents_ok);
}

/// Along a plan from the first board, from slide `i` on: the first board that
/// has not been expanded, or the end of the plan.
proof fn lemma_first_open(v: TablesView, task: Task, plan: Seq<Direction>, i: int) -> (j: int)
    requires
        task.start.wf(),
        closed_ok(v),
        successors_known(v),
        settled_bounded(v, task),
        run(task.start@, plan) is Some,
        0 <= i <= plan.len(),
        run(task.start@, plan.take(i)) is Some,
        v.costs.contains_key(grid_key(run(task.start@, plan.take(i)).unwrap())),
        v.costs[grid_key(run(task.start@, plan.take(i)).unwrap())] <= task_stretch(task) * i,
    ensures
        i <= j <= plan.len(),
        run(task.start@, plan.take(j)) is Some,
        grid_wf(run(task.start@, plan.take(j)).unwrap()),
        v.costs.contains_key(grid_key(run(task.start@, plan.take(j)).unwrap())),
        v.costs[grid_key(run(task.start@, plan.take(j)).unwrap())] <= task_stretch(task) * j,
        v.closed.contains(grid_key(run(task.start@, plan.take(j)).unwrap())) ==> j == plan.len(),
    decreases plan.len() - i,
{
    let s = run(task.start@, plan.take(i)).unwrap();
    lemma_run_wf(task.start@, plan.take(i));
    if !v.closed.contains(grid_key(s)) || i == plan.len() {
        i
    } else {
        lemma_run_prefix(task.start@, plan, i);
        let t = slide(s, plan[i]).unwrap();
        assert(v.settled[grid_key(s)] <= task_stretch(task) * plan.take(i).len());
        assert(v.costs[grid_key(s)] <= v.settled[grid_key(s)]);
        assert(v.costs.contains_key(grid_key(t)) && v.costs[grid_key(t)] <= v.settled[grid_key(s)]
            + 1);
        assert(task_stretch(task) * (i + 1) == task_stretch(task) * i + task_stretch(task))
            by (nonlinear_arith);
        lemma_first_open(v, task, plan, i + 1)
    }
}

/// The arithmetic of the stretch bound.
proof fn lemma_stretch_sum(
    w: int,
    slope: int,
    eps: int,
    hs: int,
    ht: int,
    gs: int,
    gt: int,
    j: int,
    l: int,
)
    requires
        0 <= w,
        0 <= slope,
        slope * w <= eps,
        0 <= j <= l,
        ht <= hs + slope * (l - j),
        gt <= eps * j,
        gs + w * hs <= gt + w * ht,
    ensures
        gs <= eps * l,
{
    assert(w * ht <= w * (hs + slope * (l - j))) by (nonlinear_arith)
        requires
            0 <= w,
            ht <= hs + slope * (l - j),
    ;
    assert(w * (hs + slope * (l - j)) == w * hs + (slope * w) * (l - j)) by (nonlinear_arith);
    assert((slope * w) * (l - j) <= eps * (l - j)) by (nonlinear_arith)
        requires
            slope * w <= eps,
            0 <= l - j,
    ;
    assert(eps * j + eps * (l - j) == eps * l) by (nonlinear_arith);
}

/// The cost of a board that leaves the queue unexpanded is within `stretch` of
/// every plan that leads to it.
proof fn lemma_pop_bound(v: TablesView, task: Task, b: Board, p: u64, plan: Seq<Direction>)
    requires
        inv(v, task, None),
        is_min_entry(v.queue, (b, p)),
        !v.closed.contains(grid_key(b@)),
        run(task.start@, plan) == Some(b@),
    ensures
        v.costs[grid_key(b@)] <= task_stretch(task) * plan.len(),
{
    reveal(inv);
    let s = b@;
    let eps = task_stretch(task);
    let len = plan.len() as int;
    assert(v.queue.count((b, p)) > 0);
    assert(eps >= 1);
    assert(0 <= eps * len) by (nonlinear_arith)
        requires
            eps >= 1,
            len >= 0,
    ;
    if s != task.start@ {
        assert(v.closed.contains(grid_key(task.start@)));
        assert(plan.take(0) =~= Seq::<Direction>::empty());
        assert(run(task.start@, plan.take(0)) == Some(task.start@));
        assert(eps * 0 == 0);
        let j = lemma_first_open(v, task, plan, 0);
        let t = run(task.start@, plan.take(j)).unwrap();
        if j == plan.len() {
            assert(plan.take(j) =~= plan);
        }
        assert(!v.closed.contains(grid_key(t)));
        assert(t != task.start@);
        let gt = v.costs[grid_key(t)] as int;
        assert(queued(v.queue, t, task_rank(task, t, gt)));
        let (bt, r) = choose|bt: Board, r: u64| #[trigger]
            v.queue.count((bt, r)) > 0 && bt@ == t && r == task_rank(task, t, gt);
        assert(p <= r);
        assert(p >= task_rank(task, s, v.costs[grid_key(s)] as int));
        lemma_run_prefix(task.start@, plan, j);
        task.heuristic.lemma_plan_changes(t, plan.skip(j));
        assert(plan.skip(j).len() == len - j);
        lemma_stretch_sum(
            task.weight as int,
            task.heuristic.slope(),
            eps,
            task.heuristic.value(s),
            task.heuristic.value(t),
            v.costs[grid_key(s)] as int,
            gt,
            j,
            len,
        );
    }
}

/// The cost of a board that leaves the queue unexpanded is within `stretch` of
/// every plan that leads to it.
proof fn lemma_pop_within(v: TablesView, task: Task, b: Board, p: u64)
    requires
        inv(v, task, None),
        is_min_entry(v.queue, (b, p)),
        !v.closed.contains(grid_key(b@)),
    ensures
        within_stretch(task, b@, v.costs[grid_key(b@)] as int),
{
    assert forall|plan: Seq<Direction>| #[trigger]
        run(task.start@, plan) == Some(b@) implies v.costs[grid_key(b@)] <= task_stretch(task)
        * plan.len() by {
        lemma_pop_bound(v, task, b, p, plan);
    }
}

/// With an empty queue, every board to which a plan leads has been expanded.
proof fn lemma_all_closed(v: TablesView, task: Task, plan: Seq<Direction>)
    requires
        inv(v, task, None),
        v.queue.len() == 0,
        run(task.start@, plan) is Some,
    ensures
        v.closed.contains(grid_key(run(task.start@, plan).unwrap())),
{
    reveal(inv);
    let eps = task_stretch(task);
    assert(Multiset::singleton((task.start, 0u64)).len() == 1);
    assert(v.closed.contains(grid_key(task.start@)));
    assert(plan.take(0) =~= Seq::<Direction>::empty());
    assert(run(task.start@, plan.take(0)) == Some(task.start@));
    assert(eps * 0 == 0);
    let j = lemma_first_open(v, task, plan, 0);
    let t = run(task.start@, plan.take(j)).unwrap();
    if j == plan.len() {
        assert(plan.take(j) =~= plan);
    }
    if !v.closed.contains(grid_key(t)) {
        let gt = v.costs[grid_key(t)] as int;
        assert(queued(v.queue, t, task_rank(task, t, gt)));
        let (bt, r) = choose|bt: Board, r: u64| #[trigger]
            v.queue.count((bt, r)) > 0 && bt@ == t && r == task_rank(task, t, gt);
        assert(v.queue.count((bt, r)) <= v.queue.len());
    }
}

/// With an empty queue, no plan leads from the first board to the solved one.
proof fn lemma_exhausted(v: TablesView, task: Task, plan: Seq<Direction>)
    requires
        inv(v, task, None),
        v.queue.len() == 0,
    ensures
        run(task.start@, plan) != Some(goal_grid()),
{
    if run(task.start@, plan) == Some(goal_grid()) {
        lemma_all_closed(v, task, plan);
        reveal(inv);
    }
}

/// With an empty queue, the boards expanded are the boards to which a plan leads.
proof fn lemma_exhausted_count(v: TablesView, task: Task)
    requires
        inv(v, task, None),
        v.queue.len() == 0,
    ensures
        reachable(task.start@).finite(),
        reachable(task.start@).len() == v.closed.len(),
{
    let start = task.start@;
    let decode = |k: u64| grid_of_key(k);
    assert forall|k: u64| v.closed.contains(k) implies grid_key(#[trigger] grid_of_key(k)) == k
        && reachable(start).contains(grid_of_key(k)) by {
        reveal(inv);
        assert(v.costs.contains_key(k));
        let plan = choose|plan: Seq<Direction>| #[trigger] leads_to_key(start, plan, k);
        let s = run(start, plan).unwrap();
        lemma_run_wf(start, plan);
        assert(grid_wf(s) && grid_key(s) == k);
        lemma_key_injective(grid_of_key(k), s);
        assert(run(start, plan) == Some(s));
    }
    assert forall|s: Seq<u8>| reachable(start).contains(s) implies v.closed.contains(
        grid_key(s),
    ) && grid_of_key(grid_key(s)) == s by {
        let plan = choose|plan: Seq<Direction>| #[trigger] run(start, plan) == Some(s);
        lemma_all_closed(v, task, plan);
        reveal(inv);
        lemma_run_wf(start, plan);
        lemma_key_injective(grid_of_key(grid_key(s)), s);
    }
    assert forall|s: Seq<u8>| reachable(start).contains(s) implies #[trigger] v.closed.map(
        decode,
    ).contains(s) by {
        let k = grid_key(s);
        assert(v.closed.contains(k) && decode(k) == s);
    }
    assert forall|s: Seq<u8>| #[trigger] v.closed.map(decode).contains(s) implies reachable(
        start,
    ).contains(s) by {
        let k = choose|k: u64| v.closed.contains(k) && s == decode(k);
        assert(reachable(start).contains(grid_of_key(k)));
    }
    assert(v.closed.map(decode) =~= reachable(start));
    assert(injective_on(decode, v.closed)) by {
        assert forall|k1: u64, k2: u64|
            v.closed.contains(k1) && v.closed.contains(k2) && #[trigger] decode(k1)
                == #[trigger] decode(k2) implies k1 == k2 by {
            assert(grid_key(grid_of_key(k1)) == k1);
            assert(grid_key(grid_of_key(k2)) == k2);
        }
    }
    assert(v.closed.finite()) by {
        reveal(inv);
    }
    lemma_map_size(v.closed, reachable(start), decode);
}

/// Taking a board that has been expanded already out of the queue changes nothing else.
proof fn lemma_drop_stale(v: TablesView, task: Task, b: Board, p: u64)
    requires
        inv(v, task, None),
        v.queue.count((b, p)) > 0,
        v.closed.contains(grid_key(b@)),
    ensures
        inv(TablesView { queue: v.queue.remove((b, p)), ..v }, task, None),
{
    reveal(inv);
    let w = TablesView { queue: v.queue.remove((b, p)), ..v };
    assert forall|s: Seq<u8>|
        grid_wf(s) && w.costs.contains_key(#[trigger] grid_key(s)) && !w.closed.contains(
            grid_key(s),
        ) && s != task.start@ implies queued(w.queue, s, task_rank(task, s, w.costs[grid_key(s)] as int)) by {
        let g = v.costs[grid_key(s)] as int;
        assert(queued(v.queue, s, task_rank(task, s, g)));
        let (bt, r) = choose|bt: Board, r: u64| #[trigger]
            v.queue.count((bt, r)) > 0 && bt@ == s && r == task_rank(task, s, g);
        assert(bt != b);
        assert(w.queue.count((bt, r)) > 0);
    }
    assert forall|c: Board, r: u64| #[trigger] w.queue.count((c, r)) > 0 implies v.queue.count(
        (c, r),
    ) > 0 by {}
    assert(v.closed.len() > 0);
}

/// Taking a board that has not been expanded out of the queue makes it the
/// current board.
proof fn lemma_begin(v: TablesView, task: Task, b: Board, p: u64)
    requires
        inv(v, task, None),
        v.queue.count((b, p)) > 0,
        !v.closed.contains(grid_key(b@)),
    ensures
        inv(TablesView { queue: v.queue.remove((b, p)), ..v }, task, Some(b@)),
{
    reveal(inv);
    let w = TablesView { queue: v.queue.remove((b, p)), ..v };
    assert forall|s: Seq<u8>|
        grid_wf(s) && w.costs.contains_key(#[trigger] grid_key(s)) && !w.closed.contains(
            grid_key(s),
        ) && s != task.start@ && Some(s) != Some(b@) implies queued(
        w.queue,
        s,
        task_rank(task, s, w.costs[grid_key(s)] as int),
    ) by {
        let g = v.costs[grid_key(s)] as int;
        assert(queued(v.queue, s, task_rank(task, s, g)));
        let (bt, r) = choose|bt: Board, r: u64| #[trigger]
            v.queue.count((bt, r)) > 0 && bt@ == s && r == task_rank(task, s, g);
        assert(bt != b);
        assert(w.queue.count((bt, r)) > 0);
    }
    assert forall|c: Board, r: u64| #[trigger] w.queue.count((c, r)) > 0 implies v.queue.count(
        (c, r),
    ) > 0 by {}
    if !v.closed.contains(grid_key(task.start@)) {
        assert((b, p) == (task.start, 0u64));
    }
}

/// Recording a cheaper way to a neighbour of the current board.
proof fn lemma_relax(v: TablesView, task: Task, b: Board, d: Direction, next: Board, p: u64)
    requires
        inv(v, task, Some(b@)),
        b.wf(),
        next.wf(),
        slide(b@, d) == Some(next@),
        v.costs.contains_key(grid_key(b@)),
        v.costs[grid_key(b@)] <= v.closed.len(),
        !v.costs.contains_key(grid_key(next@)) || v.costs[grid_key(b@)] + 1 < v.costs[grid_key(
            next@,
        )],
        p == task_rank(task, next@, v.costs[grid_key(b@)] + 1),
    ensures
        inv(
            TablesView {
                queue: v.queue.insert((next, p)),
                costs: v.costs.insert(grid_key(next@), (v.costs[grid_key(b@)] + 1) as u64),
                parent: v.parent.insert(grid_key(next@), (b, d)),
                ..v
            },
            task,
            Some(b@),
        ),
        grid_key(next@) != grid_key(b@),
{
    reveal(inv);
    reveal(parents_ok);
    let kn = grid_key(next@);
    let kb = grid_key(b@);
    let c = (v.costs[kb] + 1) as u64;
    let w = TablesView {
        queue: v.queue.insert((next, p)),
        costs: v.costs.insert(kn, c),
        parent: v.parent.insert(kn, (b, d)),
        ..v
    };
    assert(kn != kb);
    assert(kn != grid_key(task.start@));
    assert forall|k: u64| #[trigger] w.costs.contains_key(k) implies exists|plan: Seq<Direction>|
        #[trigger] leads_to_key(task.start@, plan, k) by {
        if k == kn {
            let to_b = choose|plan: Seq<Direction>| #[trigger] leads_to_key(task.start@, plan, kb);
            lemma_run_wf(task.start@, to_b);
            lemma_key_injective(run(task.start@, to_b).unwrap(), b@);
            lemma_run_push(task.start@, to_b, d);
            assert(leads_to_key(task.start@, to_b.push(d), kn));
        } else {
            assert(v.costs.contains_key(k));
        }
    }
    assert forall|k: u64| #[trigger] w.costs.contains_key(k) implies w.costs[k] <= v.costs[k]
        || !v.costs.contains_key(k) by {}
    assert(closed_ok(w));
    assert(costs_bounded(w, 1));
    assert forall|c2: Board, r: u64| #[trigger] w.queue.count((c2, r)) > 0 implies c2.wf()
        && w.costs.contains_key(grid_key(c2@)) && (c2@ == task.start@ || r >= task_rank(task,
        c2@,
        w.costs[grid_key(c2@)] as int,
    )) by {
        if (c2, r) != (next, p) {
            assert(v.queue.count((c2, r)) > 0);
        }
    }
    assert forall|s: Seq<u8>|
        grid_wf(s) && w.costs.contains_key(#[trigger] grid_key(s)) && !w.closed.contains(
            grid_key(s),
        ) && s != task.start@ && Some(s) != Some(b@) implies queued(
        w.queue,
        s,
        task_rank(task, s, w.costs[grid_key(s)] as int),
    ) by {
        if grid_key(s) == kn {
            lemma_key_injective(s, next@);
            assert(w.queue.count((next, p)) > 0);
        } else {
            let g = v.costs[grid_key(s)] as int;
            assert(queued(v.queue, s, task_rank(task, s, g)));
            let (bt, r) = choose|bt: Board, r: u64| #[trigger]
                v.queue.count((bt, r)) > 0 && bt@ == s && r == task_rank(task, s, g);
            assert(w.queue.count((bt, r)) > 0);
        }
    }
    assert forall|s: Seq<u8>, d2: Direction|
        grid_wf(s) && w.closed.contains(grid_key(s)) && (#[trigger] slide(s, d2)) is Some implies {
        let t = slide(s, d2).unwrap();
        w.costs.contains_key(grid_key(t)) && w.costs[grid_key(t)] <= w.settled[grid_key(s)] + 1
    } by {
        let t = slide(s, d2).unwrap();
        assert(v.costs.contains_key(grid_key(t)));
    }
    assert forall|s: Seq<u8>|
        grid_wf(s) && w.costs.contains_key(#[trigger] grid_key(s)) && s != task.start@ implies {
        &&& w.parent.contains_key(grid_key(s))
        &&& w.parent[grid_key(s)].0.wf()
        &&& slide(w.parent[grid_key(s)].0@, w.parent[grid_key(s)].1) == Some(s)
        &&& w.costs.contains_key(grid_key(w.parent[grid_key(s)].0@))
        &&& w.costs[grid_key(w.parent[grid_key(s)].0@)] < w.costs[grid_key(s)]
    } by {
        if grid_key(s) == kn {
            lemma_key_injective(s, next@);
        } else {
            let pb = v.parent[grid_key(s)].0;
            assert(v.costs.contains_key(grid_key(pb@)));
        }
    }
}

/// Closing the current board once all its neighbours have been looked at.
proof fn lemma_close(v: TablesView, task: Task, b: Board)
    requires
        inv(v, task, Some(b@)),
        b.wf(),
        b@ != goal_grid(),
        v.costs.contains_key(grid_key(b@)),
        !v.closed.contains(grid_key(b@)),
        v.costs[grid_key(b@)] <= v.closed.len(),
        within_stretch(task, b@, v.costs[grid_key(b@)] as int),
        forall|d: Direction| (#[trigger] slide(b@, d)) is Some ==> v.costs.contains_key(
            grid_key(slide(b@, d).unwrap()),
        ) && v.costs[grid_key(slide(b@, d).unwrap())] <= v.costs[grid_key(b@)] + 1,
    ensures
        inv(
            TablesView {
                closed: v.closed.insert(grid_key(b@)),
                settled: v.settled.insert(grid_key(b@), v.costs[grid_key(b@)] as int),
                ..v
            },
            task,
            None,
        ),
        v.closed.insert(grid_key(b@)).len() == v.closed.len() + 1,
{
    reveal(inv);
    let kb = grid_key(b@);
    let w = TablesView {
        closed: v.closed.insert(kb),
        settled: v.settled.insert(kb, v.costs[kb] as int),
        ..v
    };
    lemma_key_injective(b@, goal_grid());
    assert(grid_wf(goal_grid()));
    lemma_key_injective(b@, task.start@);
    assert forall|k: u64| #[trigger] w.closed.contains(k) implies k < KEY_LIMIT
        && w.costs.contains_key(k) && w.settled.contains_key(k) && w.costs[k] <= w.settled[k] by {
        if k != kb {
            assert(v.closed.contains(k));
        }
    }
    lemma_bounded_keys(w.closed, KEY_LIMIT as nat);
    assert(closed_ok(w));
    assert(costs_bounded(w, 0));
    assert forall|s: Seq<u8>|
        grid_wf(s) && w.costs.contains_key(#[trigger] grid_key(s)) && !w.closed.contains(
            grid_key(s),
        ) && s != task.start@ implies queued(w.queue, s, task_rank(task, s, w.costs[grid_key(s)] as int)) by {
        assert(s != b@);
    }
    assert forall|s: Seq<u8>, d: Direction|
        grid_wf(s) && w.closed.contains(grid_key(s)) && (#[trigger] slide(s, d)) is Some implies {
        let t = slide(s, d).unwrap();
        w.costs.contains_key(grid_key(t)) && w.costs[grid_key(t)] <= w.settled[grid_key(s)] + 1
    } by {
        if grid_key(s) == kb {
            lemma_key_injective(s, b@);
        } else {
            assert(v.closed.contains(grid_key(s)));
        }
    }
    assert forall|plan: Seq<Direction>|
        (#[trigger] run(task.start@, plan)) is Some && w.closed.contains(
            grid_key(run(task.start@, plan).unwrap()),
        ) implies w.settled[grid_key(run(task.start@, plan).unwrap())] <= task_stretch(task)
        * plan.len() by {
        let t = run(task.start@, plan).unwrap();
        lemma_run_wf(task.start@, plan);
        if grid_key(t) == kb {
            lemma_key_injective(t, b@);
        } else {
            assert(v.closed.contains(grid_key(t)));
        }
    }
}

/// The tables of one search.
struct SearchTables {
    heap: MinHeap<Board>,
    costs: HashMap<u64, u64>,
    parent: HashMap<u64, (Board, Direction)>,
    closed: HashSet<u64>,
    settled: Ghost<Map<u64, int>>,
}

impl View for SearchTables {
    type V = TablesView;

    closed spec fn view(&self) -> TablesView {
        TablesView {
            queue: self.heap@,
            costs: self.costs@,
            parent: self.parent@,
            closed: self.closed@,
            settled: self.settled@,
        }
    }
}

impl SearchTables {
    /// The tables at the start: the first board is queued at priority 0, at cost 0.
    fn start(init: Board, Ghost(task): Ghost<Task>) -> (tables: SearchTables)
        requires
            init.wf(),
            task.start == init,
        ensures
            tables.heap.wf(),
            inv(tables@, task, None),
    {
        let mut heap: MinHeap<Board> = MinHeap::new();
        let mut costs: HashMap<u64, u64> = HashMap::new();
        let parent: HashMap<u64, (Board, Direction)> = HashMap::new();
        let closed: HashSet<u64> = HashSet::new();
        heap.insert(init, 0);
        costs.insert(init.key(), 0);
        let tables = SearchTables { heap, costs, parent, closed, settled: Ghost(Map::empty()) };
        proof {
            reveal(inv);
            reveal(parents_ok);
            let v = tables@;
            assert(v.queue =~= Multiset::singleton((init, 0u64)));
            assert(v.closed.len() == 0);
            assert(leads_to_key(task.start@, Seq::<Direction>::empty(), grid_key(task.start@)));
            assert forall|s: Seq<u8>|
                grid_wf(s) && v.costs.contains_key(#[trigger] grid_key(s)) && s
                    != task.start@ implies false by {
                lemma_key_injective(s, task.start@);
            }
        }
        tables
    }

    /// Looks at the neighbour of `board` in `direction`: where the way through
    /// `board` is the cheapest known so far, records it and queues the neighbour.
    fn relax(
        &mut self,
        board: &Board,
        cost: u64,
        direction: Direction,
        heuristic: &Heuristic,
        weight: u32,
        Ghost(task): Ghost<Task>,
    )
        requires
            old(self).heap.wf(),
            inv(old(self)@, task, Some(board@)),
            task.heuristic == *heuristic,
            task.weight == weight,
            board.wf(),
            old(self)@.costs.contains_key(grid_key(board@)),
            old(self)@.costs[grid_key(board@)] == cost,
            cost <= old(self)@.closed.len(),
        ensures
            final(self).heap.wf(),
            inv(final(self)@, task, Some(board@)),
            final(self)@.closed == old(self)@.closed,
            final(self)@.settled == old(self)@.settled,
            final(self)@.costs.contains_key(grid_key(board@)),
            final(self)@.costs[grid_key(board@)] == cost,
            forall|k: u64| #[trigger]
                old(self)@.costs.contains_key(k) ==> final(self)@.costs.contains_key(k)
                    && final(self)@.costs[k] <= old(self)@.costs[k],
            slide(board@, direction) is Some ==> final(self)@.costs.contains_key(
                grid_key(slide(board@, direction).unwrap()),
            ) && final(self)@.costs[grid_key(slide(board@, direction).unwrap())] <= cost + 1,
    {
        proof {
            lemma_inv_facts(self@, task, Some(board@));
        }
        match board.apply(direction) {
            Some(next) => {
                let next_key = next.key();
                let through = cost + 1;
                let better = match self.costs.get(&next_key) {
                    Some(known) => through < *known,
                    None => true,
                };
                if better {
                    let estimate = heuristic.estimate(&next);
                    proof {
                        heuristic.lemma_total_range(true, next@, 9);
                        assert(weight * estimate <= 0xffff_ffff * 36) by (nonlinear_arith)
                            requires
                                0 <= weight <= 0xffff_ffff,
                                0 <= estimate <= 36,
                        ;
                    }
                    let priority = through + (weight as u64) * (estimate as u64);
                    proof {
                        lemma_relax(self@, task, *board, direction, next, priority);
                    }
                    self.costs.insert(next_key, through);
                    self.parent.insert(next_key, (*board, direction));
                    self.heap.insert(next, priority);
                }
            },
            None => {},
        }
    }

    /// Expands `board`: looks at its four neighbours, then closes it.
    fn expand(
        &mut self,
        board: &Board,
        key: u64,
        heuristic: &Heuristic,
        weight: u32,
        Ghost(task): Ghost<Task>,
    )
        requires
            old(self).heap.wf(),
            inv(old(self)@, task, Some(board@)),
            task.heuristic == *heuristic,
            task.weight == weight,
            board.wf(),
            key == grid_key(board@),
            board@ != goal_grid(),
            old(self)@.costs.contains_key(key),
            !old(self)@.closed.contains(key),
            old(self)@.costs[key] <= old(self)@.closed.len(),
            within_stretch(task, board@, old(self)@.costs[key] as int),
        ensures
            final(self).heap.wf(),
            inv(final(self)@, task, None),
            final(self)@.closed.len() == old(self)@.closed.len() + 1,
            final(self)@.closed.len() <= KEY_LIMIT,
    {
        let cost = *self.costs.get(&key).unwrap();
        self.relax(board, cost, Direction::Right, heuristic, weight, Ghost(task));
        self.relax(board, cost, Direction::Left, heuristic, weight, Ghost(task));
        self.relax(board, cost, Direction::Up, heuristic, weight, Ghost(task));
        self.relax(board, cost, Direction::Down, heuristic, weight, Ghost(task));
        proof {
            assert forall|d: Direction| (#[trigger] slide(board@, d)) is Some implies self@.costs.contains_key(
                grid_key(slide(board@, d).unwrap()),
            ) && self@.costs[grid_key(slide(board@, d).unwrap())] <= cost + 1 by {
                match d {
                    Direction::Right => {},
                    Direction::Left => {},
                    Direction::Up => {},
                    Direction::Down => {},
                }
            }
            lemma_close(self@, task, *board);
        }
        self.closed.insert(key);
        self.settled = Ghost(self.settled@.insert(key, cost as int));
        proof {
            lemma_inv_facts(self@, task, None);
        }
    }

    /// The plan that the parents of `goal` spell out, back to the first board.
    fn reconstruct(&self, goal: &Board, init_key: u64, Ghost(task): Ghost<Task>) -> (plan: Vec<
        Direction,
    >)
        requires
            task.start.wf(),
            parents_ok(self@.costs, self@.parent, task.start@),
            goal.wf(),
            self@.costs.contains_key(grid_key(goal@)),
            init_key == grid_key(task.start@),
        ensures
            run(task.start@, plan@) == Some(goal@),
            plan@.len() <= self@.costs[grid_key(goal@)],
    {
        let mut plan: Vec<Direction> = Vec::new();
        let mut board = *goal;
        let mut key = board.key();
        while key != init_key
            invariant
                task.start.wf(),
                parents_ok(self@.costs, self@.parent, task.start@),
                board.wf(),
                key == grid_key(board@),
                init_key == grid_key(task.start@),
                self@.costs.contains_key(key),
                self@.costs.contains_key(grid_key(goal@)),
                run(board@, plan@) == Some(goal@),
                plan@.len() + self@.costs[key] <= self@.costs[grid_key(goal@)],
            decreases self@.costs[key],
        {
            proof {
                lemma_key_injective(board@, task.start@);
                lemma_parent_facts(self@.costs, self@.parent, task.start@, board@);
            }
            let step = *self.parent.get(&key).unwrap();
            let ghost before = plan@;
            plan.insert(0, step.1);
            proof {
                assert(plan@[0] == step.1);
                assert(plan@.drop_first() =~= before);
            }
            board = step.0;
            key = board.key();
        }
        proof {
            lemma_key_injective(board@, task.start@);
        }
        plan
    }
}

/// The search proper: the plan found, if any, and the number of boards expanded.
fn explore(init: Board, heuristic: &Heuristic, weight: u32) -> (r: (Option<Vec<Direction>>, usize))
    requires
        init.wf(),
    ensures
        match r.0 {
            Some(plan) => {
                &&& run(init@, plan@) == Some(goal_grid())
                &&& forall|other: Seq<Direction>| #[trigger]
                    run(init@, other) == Some(goal_grid()) ==> plan@.len() <= stretch(
                        *heuristic,
                        weight,
                    ) * other.len()
                &&& plan@.len() <= r.1
            },
            None => {
                &&& forall|other: Seq<Direction>| #[trigger]
                    run(init@, other) != Some(goal_grid())
                &&& reachable(init@).finite()
                &&& r.1 == reachable(init@).len()
            },
        },
        init@ == goal_grid() ==> r.0 is Some && r.0.unwrap()@.len() == 0 && r.1 == 0,
{
    let ghost task = Task { start: init, heuristic: *heuristic, weight };
    let goal_key = Board::goal().key();
    let init_key = init.key();
    let mut tables = SearchTables::start(init, Ghost(task));
    while !tables.heap.is_empty()
        invariant
            tables.heap.wf(),
            inv(tables@, task, None),
            task.start == init,
            task.heuristic == *heuristic,
            task.weight == weight,
            goal_key == grid_key(goal_grid()),
            init_key == grid_key(init@),
        decreases KEY_LIMIT - tables@.closed.len(), tables@.queue.len(),
    {
        let ghost before = tables@;
        proof {
            lemma_inv_facts(before, task, None);
        }
        let board = tables.heap.pop().unwrap();
        let ghost p = choose|p: u64| #[trigger]
            is_min_entry(before.queue, (board, p)) && tables@.queue == before.queue.remove(
                (board, p),
            );
        proof {
            lemma_entry_facts(before, task, board, p);
            assert(tables@ == TablesView { queue: before.queue.remove((board, p)), ..before });
        }
        let key = board.key();
        if tables.closed.contains(&key) {
            proof {
                lemma_drop_stale(before, task, board, p);
            }
        } else {
            proof {
                lemma_pop_within(before, task, board, p);
                lemma_key_injective(board@, goal_grid());
            }
            if key == goal_key {
                let plan = tables.reconstruct(&board, init_key, Ghost(task));
                let expanded = tables.closed.len();
                return (Some(plan), expanded);
            }
            proof {
                lemma_begin(before, task, board, p);
            }
            tables.expand(&board, key, heuristic, weight, Ghost(task));
        }
    }
    proof {
        assert forall|other: Seq<Direction>| #[trigger]
            run(init@, other) != Some(goal_grid()) by {
            lemma_exhausted(tables@, task, other);
        }
        lemma_inv_facts(tables@, task, None);
        lemma_exhausted_count(tables@, task);
    }
    (None, tables.closed.len())
}

/// Searches for a plan that leads from `init_state` to the solved board.
///
/// A weight of 0 ranks boards by cost alone, a weight of 1 gives A*, a greater
/// weight gives more say to the estimate. Returns the plan found, `None` where
/// no plan exists, and the statistics of the search.
pub fn search(init_state: Board, heuristic: &Heuristic, weight: u32) -> (r: (
    Option<Vec<Direction>>,
    Stats,
))
    requires
        init_state.wf(),
    ensures
        match r.0 {
            Some(plan) => {
                &&& run(init_state@, plan@) == Some(goal_grid())
                &&& forall|other: Seq<Direction>| #[trigger]
                    run(init_state@, other) == Some(goal_grid()) ==> plan@.len() <= stretch(
                        *heuristic,
                        weight,
                    ) * other.len()
                &&& plan@.len() <= r.1.expanded
            },
            None => {
                &&& forall|other: Seq<Direction>| #[trigger]
                    run(init_state@, other) != Some(goal_grid())
                &&& reachable(init_state@).finite()
                &&& r.1.expanded == reachable(init_state@).len()
            },
        },
        init_state@ == goal_grid() ==> r.0 is Some && r.0.unwrap()@.len() == 0 && r.1.expanded
            == 0,
{
    let start = clock_now();
    let (plan, expanded) = explore(init_state, heuristic, weight);
    let runtime = clock_elapsed(&start);
    (plan, Stats::new(expanded, runtime))
}

} // verus!
