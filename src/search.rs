//! Best-first search over block configurations, with duplicates dropped when generated.
use vstd::prelude::*;
use crate::board::{
    distance, distance_to_goal, dx, dy, in_bound, lemma_push_shape, move_square, move_tiles,
    small, small_goal, tiles, Arrow, Block, Tile,
};

verus! {

/// A configuration reached during a search, with the move that produced it.
pub struct Node {
    pub squares: Vec<Block>,
    pub cost: u32,
    pub distance: u128,
    /// The node it was reached from and the index of the block moved, or none for the start.
    pub link: Option<(usize, usize)>,
}

/// A node waiting in the frontier, with its cost and its estimate of total cost.
#[derive(Clone, Copy, Debug)]
pub struct Entry {
    pub node: usize,
    pub cost: u32,
    pub estimate: u128,
}

/// The configuration reached from `c` by moving the blocks of `moves` in turn.
pub open spec fn run(arrows: Seq<Arrow>, c: Seq<Tile>, moves: Seq<usize>) -> Seq<Tile>
    decreases moves.len(),
{
    if moves.len() == 0 {
        c
    } else {
        move_tiles(arrows, run(arrows, c, moves.drop_last()), moves.last() as int)
    }
}

/// Every block of `c` with a goal stands on it.
pub open spec fn is_goal(c: Seq<Tile>, goals: Seq<Option<(i64, i64)>>) -> bool {
    distance(c, goals, c.len() as int) == 0
}

/// The moves that led from the start to node `k`, in order.
pub open spec fn trail(nodes: Seq<Node>, k: int) -> Seq<usize>
    decreases k,
{
    if k < 0 || k >= nodes.len() {
        Seq::empty()
    } else {
        match nodes[k].link {
            Some(l) => if 0 <= l.0 < k {
                trail(nodes, l.0 as int).push(l.1)
            } else {
                Seq::empty()
            },
            None => Seq::empty(),
        }
    }
}

/// Largest absolute coordinate of a block after `cost` moves from a start in `i32` range.
pub open spec fn reach(cost: int) -> int {
    0x8000_0000 + cost
}

pub open spec fn within(s: Seq<Block>, r: int) -> bool {
    forall|j: int| 0 <= j < s.len() ==> -r <= (#[trigger] s[j]).x <= r && -r <= s[j].y <= r
}

pub open spec fn node_ok(
    arrows: Seq<Arrow>,
    goals: Seq<Option<(i64, i64)>>,
    start: Seq<Tile>,
    nodes: Seq<Node>,
    k: int,
    budget: int,
) -> bool {
    let nd = nodes[k];
    let t = trail(nodes, k);
    &&& nd.squares@.len() == start.len()
    &&& tiles(nd.squares@) == run(arrows, start, t)
    &&& t.len() == nd.cost
    &&& forall|i: int| 0 <= i < t.len() ==> t[i] < start.len()
    &&& nd.distance == distance(tiles(nd.squares@), goals, start.len() as int)
    &&& nd.cost <= budget
    &&& within(nd.squares@, reach(nd.cost as int))
    &&& match nd.link {
        Some(l) => 0 <= l.0 < k,
        None => k == 0,
    }
}

pub open spec fn arena_ok(
    arrows: Seq<Arrow>,
    goals: Seq<Option<(i64, i64)>>,
    start: Seq<Tile>,
    nodes: Seq<Node>,
    budget: int,
) -> bool {
    &&& nodes.len() >= 1
    &&& forall|k: int| 0 <= k < nodes.len() ==> #[trigger] node_ok(arrows, goals, start, nodes, k, budget)
}

pub open spec fn frontier_ok(nodes: Seq<Node>, f: Seq<Entry>) -> bool {
    forall|i: int|
        0 <= i < f.len() ==> {
            let e = #[trigger] f[i];
            &&& e.node < nodes.len()
            &&& e.cost == nodes[e.node as int].cost
            &&& e.estimate == e.cost + nodes[e.node as int].distance
        }
}

/// How many nodes a frontier entry of cost `c` can still give rise to, itself included.
pub open spec fn potential(n: nat, c: int, budget: int) -> nat
    decreases budget - c,
{
    if c >= budget {
        1
    } else {
        1 + n * potential(n, c + 1, budget)
    }
}

pub open spec fn pot_sum(f: Seq<Entry>, n: nat, budget: int) -> nat
    decreases f.len(),
{
    if f.len() == 0 {
        0
    } else {
        pot_sum(f.drop_last(), n, budget) + potential(n, f.last().cost as int, budget)
    }
}

pub proof fn lemma_pot_sum_remove(f: Seq<Entry>, n: nat, budget: int, k: int)
    requires
        0 <= k < f.len(),
    ensures
        pot_sum(f.remove(k), n, budget) + potential(n, f[k].cost as int, budget) == pot_sum(
            f,
            n,
            budget,
        ),
    decreases f.len(),
{
    if k == f.len() - 1 {
        assert(f.remove(k) =~= f.drop_last());
    } else {
        lemma_pot_sum_remove(f.drop_last(), n, budget, k);
        assert(f.remove(k).drop_last() =~= f.drop_last().remove(k));
        assert(f.remove(k).last() == f.last());
    }
}

pub proof fn lemma_trail_prefix(nodes: Seq<Node>, more: Seq<Node>, k: int)
    requires
        0 <= k < nodes.len() <= more.len(),
        forall|i: int| 0 <= i < nodes.len() ==> more[i] == nodes[i],
    ensures
        trail(more, k) == trail(nodes, k),
    decreases k,
{
    match nodes[k].link {
        Some(l) => if 0 <= l.0 < k {
            lemma_trail_prefix(nodes, more, l.0 as int);
        },
        None => {},
    }
}

/// A node of the search as a mathematical value.
pub struct NodeModel {
    pub config: Seq<Tile>,
    pub cost: int,
    pub distance: int,
    pub link: Option<(usize, usize)>,
}

pub open spec fn node_model(nd: Node) -> NodeModel {
    NodeModel {
        config: tiles(nd.squares@),
        cost: nd.cost as int,
        distance: nd.distance as int,
        link: nd.link,
    }
}

pub open spec fn models(nodes: Seq<Node>) -> Seq<NodeModel> {
    nodes.map_values(|nd: Node| node_model(nd))
}

/// The moves that led from the start to node `k` of a search, in order.
pub open spec fn path_of(nodes: Seq<NodeModel>, k: int) -> Seq<usize>
    decreases k,
{
    if k < 0 || k >= nodes.len() {
        Seq::empty()
    } else {
        match nodes[k].link {
            Some(l) => if 0 <= l.0 < k {
                path_of(nodes, l.0 as int).push(l.1)
            } else {
                Seq::empty()
            },
            None => Seq::empty(),
        }
    }
}

/// Some node already holds configuration `c`.
pub open spec fn seen_in(nodes: Seq<NodeModel>, c: Seq<Tile>) -> bool {
    exists|i: int| 0 <= i < nodes.len() && (#[trigger] nodes[i]).config == c
}

/// The index of the first entry of lowest estimate.
pub open spec fn lowest_index(f: Seq<Entry>) -> int
    decreases f.len(),
{
    if f.len() <= 1 {
        0
    } else {
        let j = lowest_index(f.drop_last());
        if f.last().estimate < f[j].estimate {
            f.len() - 1
        } else {
            j
        }
    }
}

/// Node `k` has its first `color` successors generated, in block order: each one whose
/// configuration a node already holds is dropped, each other one becomes a new node and
/// a new frontier entry (while node indices fit in `usize`, as they do for any vector).
pub open spec fn expand(
    arrows: Seq<Arrow>,
    goals: Seq<Option<(i64, i64)>>,
    nodes: Seq<NodeModel>,
    f: Seq<Entry>,
    k: int,
    color: int,
) -> (Seq<NodeModel>, Seq<Entry>)
    decreases color,
{
    if color <= 0 {
        (nodes, f)
    } else {
        let (ns, fs) = expand(arrows, goals, nodes, f, k, color - 1);
        let c = move_tiles(arrows, ns[k].config, color - 1);
        if seen_in(ns, c) || ns.len() > usize::MAX {
            (ns, fs)
        } else {
            let cost = ns[k].cost + 1;
            let dist = distance(c, goals, c.len() as int);
            (
                ns.push(
                    NodeModel {
                        config: c,
                        cost,
                        distance: dist,
                        link: Some((k as usize, (color - 1) as usize)),
                    },
                ),
                fs.push(
                    Entry { node: ns.len() as usize, cost: cost as u32, estimate: (cost + dist) as u128 },
                ),
            )
        }
    }
}

/// The frontier entries point at nodes and carry their costs, all within the budget.
pub open spec fn model_ok(nodes: Seq<NodeModel>, f: Seq<Entry>, budget: int) -> bool {
    &&& 0 <= budget <= 0x7fff_ffff
    &&& forall|i: int| 0 <= i < nodes.len() ==> 0 <= (#[trigger] nodes[i]).cost <= budget
    &&& forall|i: int|
        0 <= i < f.len() ==> (#[trigger] f[i]).node < nodes.len() && f[i].cost as int
            == nodes[f[i].node as int].cost
}

/// The result of the search from a given arena and frontier: take the first entry of
/// lowest estimate; stop with its moves if it is at the goal; expand it if its cost is
/// under the budget; go on until the frontier is empty.
pub open spec fn search(
    arrows: Seq<Arrow>,
    goals: Seq<Option<(i64, i64)>>,
    budget: int,
    n: nat,
    nodes: Seq<NodeModel>,
    f: Seq<Entry>,
) -> Option<Seq<usize>>
    decreases pot_sum(f, n, budget),
    via search_decreases
{
    if f.len() == 0 || !model_ok(nodes, f, budget) {
        None
    } else {
        let b = lowest_index(f);
        let k = f[b].node as int;
        let f1 = f.remove(b);
        if nodes[k].distance == 0 {
            Some(path_of(nodes, k))
        } else if nodes[k].cost < budget {
            let (ns, fs) = expand(arrows, goals, nodes, f1, k, n as int);
            search(arrows, goals, budget, n, ns, fs)
        } else {
            search(arrows, goals, budget, n, nodes, f1)
        }
    }
}

/// The node a search starts from.
pub open spec fn root(start: Seq<Tile>, goals: Seq<Option<(i64, i64)>>) -> NodeModel {
    NodeModel {
        config: start,
        cost: 0,
        distance: distance(start, goals, start.len() as int),
        link: None,
    }
}

/// What the search returns for a start, arrows, goals and move budget.
pub open spec fn outcome(
    arrows: Seq<Arrow>,
    goals: Seq<Option<(i64, i64)>>,
    start: Seq<Tile>,
    max_moves: i32,
) -> Option<Seq<usize>> {
    let d = distance(start, goals, start.len() as int);
    search(
        arrows,
        goals,
        budget_of(max_moves),
        start.len(),
        seq![root(start, goals)],
        seq![Entry { node: 0, cost: 0, estimate: d as u128 }],
    )
}

pub proof fn lemma_lowest_index(f: Seq<Entry>)
    requires
        f.len() > 0,
    ensures
        0 <= lowest_index(f) < f.len(),
        forall|i: int| 0 <= i < f.len() ==> f[lowest_index(f)].estimate <= (#[trigger] f[i]).estimate,
        forall|i: int| 0 <= i < lowest_index(f) ==> f[lowest_index(f)].estimate < (#[trigger] f[i]).estimate,
    decreases f.len(),
{
    if f.len() > 1 {
        lemma_lowest_index(f.drop_last());
        let g = f.drop_last();
        let j = lowest_index(g);
        assert(g[j] == f[j]);
        let r = lowest_index(f);
        assert forall|i: int| 0 <= i < f.len() implies f[r].estimate <= (#[trigger] f[i]).estimate by {
            if i < f.len() - 1 {
                assert(g[i] == f[i]);
            }
        }
        assert forall|i: int| 0 <= i < r implies f[r].estimate < (#[trigger] f[i]).estimate by {
            assert(g[i] == f[i]);
        }
    }
}

/// Expanding a node keeps every node and entry there was, and adds entries one step
/// dearer than the node, one at most for each successor generated.
pub proof fn lemma_expand(
    arrows: Seq<Arrow>,
    goals: Seq<Option<(i64, i64)>>,
    nodes: Seq<NodeModel>,
    f: Seq<Entry>,
    k: int,
    color: int,
    n: nat,
    budget: int,
)
    requires
        0 <= k < nodes.len(),
        0 <= nodes[k].cost < budget <= 0x7fff_ffff,
    ensures
        ({
            let (ns, fs) = expand(arrows, goals, nodes, f, k, color);
            &&& ns.len() >= nodes.len()
            &&& forall|i: int| 0 <= i < nodes.len() ==> #[trigger] ns[i] == nodes[i]
            &&& forall|i: int| nodes.len() <= i < ns.len() ==> (#[trigger] ns[i]).cost == nodes[k].cost + 1
            &&& fs.len() >= f.len()
            &&& forall|i: int| 0 <= i < f.len() ==> #[trigger] fs[i] == f[i]
            &&& forall|i: int| f.len() <= i < fs.len() ==> (#[trigger] fs[i]).cost as int == nodes[k].cost + 1
            &&& color >= 0 ==> pot_sum(fs, n, budget) <= pot_sum(f, n, budget) + color * potential(
                n,
                nodes[k].cost + 1,
                budget,
            )
        }),
    decreases color,
{
    if color > 0 {
        lemma_expand(arrows, goals, nodes, f, k, color - 1, n, budget);
        let (ns, fs) = expand(arrows, goals, nodes, f, k, color - 1);
        let next_pot = potential(n, nodes[k].cost + 1, budget);
        assert(pot_sum(f, n, budget) + (color - 1) * next_pot + next_pot == pot_sum(f, n, budget) + color * next_pot)
            by (nonlinear_arith);
        let c = move_tiles(arrows, ns[k].config, color - 1);
        if !seen_in(ns, c) && ns.len() <= usize::MAX {
            let (ns2, fs2) = expand(arrows, goals, nodes, f, k, color);
            assert(ns[k] == nodes[k]);
            assert(fs2.drop_last() =~= fs);
            assert(ns2.drop_last() =~= ns);
            assert(ns2[ns.len() as int].cost == nodes[k].cost + 1);
            assert(fs2.last().cost as int == nodes[k].cost + 1);
            assert forall|i: int| 0 <= i < nodes.len() implies #[trigger] ns2[i] == nodes[i] by {
                assert(ns2[i] == ns[i]);
            }
            assert forall|i: int| nodes.len() <= i < ns2.len() implies (#[trigger] ns2[i]).cost
                == nodes[k].cost + 1 by {
                if i < ns.len() {
                    assert(ns2[i] == ns[i]);
                }
            }
            assert forall|i: int| 0 <= i < f.len() implies #[trigger] fs2[i] == f[i] by {
                assert(fs2[i] == fs[i]);
            }
            assert forall|i: int| f.len() <= i < fs2.len() implies (#[trigger] fs2[i]).cost as int
                == nodes[k].cost + 1 by {
                if i < fs.len() {
                    assert(fs2[i] == fs[i]);
                }
            }
            assert(pot_sum(fs2, n, budget) == pot_sum(fs, n, budget) + next_pot);
        }
    } else if color == 0 {
        assert(color * potential(n, nodes[k].cost + 1, budget) == 0) by (nonlinear_arith)
            requires
                color == 0,
        ;
    }
}

#[via_fn]
proof fn search_decreases(
    arrows: Seq<Arrow>,
    goals: Seq<Option<(i64, i64)>>,
    budget: int,
    n: nat,
    nodes: Seq<NodeModel>,
    f: Seq<Entry>,
) {
    if f.len() != 0 && model_ok(nodes, f, budget) {
        lemma_search_step(arrows, goals, budget, n, nodes, f);
    }
}

/// One step of the search leaves less potential in the frontier.
pub proof fn lemma_search_step(
    arrows: Seq<Arrow>,
    goals: Seq<Option<(i64, i64)>>,
    budget: int,
    n: nat,
    nodes: Seq<NodeModel>,
    f: Seq<Entry>,
)
    requires
        f.len() != 0,
        model_ok(nodes, f, budget),
    ensures
        ({
            let b = lowest_index(f);
            let k = f[b].node as int;
            let f1 = f.remove(b);
            &&& pot_sum(f1, n, budget) < pot_sum(f, n, budget)
            &&& nodes[k].cost < budget ==> pot_sum(
                expand(arrows, goals, nodes, f1, k, n as int).1,
                n,
                budget,
            ) < pot_sum(f, n, budget)
        }),
{
    lemma_lowest_index(f);
    let b = lowest_index(f);
    let k = f[b].node as int;
    lemma_pot_sum_remove(f, n, budget, b);
    assert(f[b].node < nodes.len());
    if nodes[k].cost < budget {
        lemma_expand(arrows, goals, nodes, f.remove(b), k, n as int, n, budget);
        assert(potential(n, nodes[k].cost, budget) == 1 + n * potential(n, nodes[k].cost + 1, budget));
    }
}

pub proof fn lemma_path_models(nodes: Seq<Node>, k: int)
    ensures
        trail(nodes, k) == path_of(models(nodes), k),
    decreases k,
{
    if 0 <= k < nodes.len() {
        assert(models(nodes)[k] == node_model(nodes[k]));
        match nodes[k].link {
            Some(l) => if 0 <= l.0 < k {
                lemma_path_models(nodes, l.0 as int);
            },
            None => {},
        }
    }
}

pub proof fn lemma_models_ok(
    arrows: Seq<Arrow>,
    goals: Seq<Option<(i64, i64)>>,
    start: Seq<Tile>,
    nodes: Seq<Node>,
    f: Seq<Entry>,
    budget: int,
)
    requires
        arena_ok(arrows, goals, start, nodes, budget),
        frontier_ok(nodes, f),
        0 <= budget <= 0x7fff_ffff,
    ensures
        model_ok(models(nodes), f, budget),
{
    let m = models(nodes);
    assert forall|i: int| 0 <= i < m.len() implies 0 <= (#[trigger] m[i]).cost <= budget by {
        assert(node_ok(arrows, goals, start, nodes, i, budget));
    }
    assert forall|i: int| 0 <= i < f.len() implies (#[trigger] f[i]).node < m.len() && f[i].cost as int
        == m[f[i].node as int].cost by {
        assert(f[i].node < nodes.len());
    }
}

/// A search that starts at the goal returns at once, with no moves, whatever the budget.
pub proof fn lemma_start_at_goal(
    arrows: Seq<Arrow>,
    goals: Seq<Option<(i64, i64)>>,
    start: Seq<Tile>,
    max_moves: i32,
)
    requires
        is_goal(start, goals),
    ensures
        outcome(arrows, goals, start, max_moves) == Some(Seq::<usize>::empty()),
{
    let d = distance(start, goals, start.len() as int);
    let nodes = seq![root(start, goals)];
    let f = seq![Entry { node: 0, cost: 0, estimate: d as u128 }];
    assert(model_ok(nodes, f, budget_of(max_moves)));
    assert(lowest_index(f) == 0);
    assert(path_of(nodes, 0) =~= Seq::<usize>::empty());
}

/// With no goal at all every configuration is a goal, so the search returns no moves.
pub proof fn lemma_no_goals(
    arrows: Seq<Arrow>,
    goals: Seq<Option<(i64, i64)>>,
    start: Seq<Tile>,
    max_moves: i32,
)
    requires
        goals.len() == start.len(),
        forall|i: int| 0 <= i < goals.len() ==> #[trigger] goals[i] is None,
    ensures
        outcome(arrows, goals, start, max_moves) == Some(Seq::<usize>::empty()),
{
    lemma_no_goals_distance(start, goals, start.len() as int);
    lemma_start_at_goal(arrows, goals, start, max_moves);
}

pub proof fn lemma_no_goals_distance(c: Seq<Tile>, goals: Seq<Option<(i64, i64)>>, n: int)
    requires
        n <= goals.len(),
        forall|i: int| 0 <= i < goals.len() ==> #[trigger] goals[i] is None,
    ensures
        distance(c, goals, n) == 0,
    decreases n,
{
    if n > 0 {
        lemma_no_goals_distance(c, goals, n - 1);
        assert(goals[n - 1] is None);
    }
}

/// No two nodes hold the same configuration.
pub open spec fn distinct_configs(nodes: Seq<NodeModel>) -> bool {
    forall|i: int, j: int| 0 <= i < j < nodes.len() ==> nodes[i].config != nodes[j].config
}

/// Duplicates are dropped when generated: expanding a node keeps every earlier node as it
/// was, cost and link included, even where a successor reaches its configuration more
/// cheaply; adds a node and a frontier entry only for a configuration no node held; and
/// leaves every successor's configuration held by exactly one node.
pub proof fn lemma_first_copy_kept(
    arrows: Seq<Arrow>,
    goals: Seq<Option<(i64, i64)>>,
    nodes: Seq<NodeModel>,
    f: Seq<Entry>,
    k: int,
    color: int,
)
    requires
        0 <= k < nodes.len(),
        nodes.len() + color <= usize::MAX,
        distinct_configs(nodes),
    ensures
        ({
            let (ns, fs) = expand(arrows, goals, nodes, f, k, color);
            &&& ns.len() >= nodes.len()
            &&& color >= 0 ==> ns.len() <= nodes.len() + color
            &&& forall|i: int| 0 <= i < nodes.len() ==> #[trigger] ns[i] == nodes[i]
            &&& fs.len() - f.len() == ns.len() - nodes.len()
            &&& forall|i: int| 0 <= i < f.len() ==> #[trigger] fs[i] == f[i]
            &&& forall|i: int|
                nodes.len() <= i < ns.len() ==> !seen_in(nodes, (#[trigger] ns[i]).config)
            &&& distinct_configs(ns)
            &&& forall|c: int|
                0 <= c < color ==> seen_in(ns, #[trigger] move_tiles(arrows, nodes[k].config, c))
        }),
    decreases color,
{
    if color > 0 {
        lemma_first_copy_kept(arrows, goals, nodes, f, k, color - 1);
        let (ns, fs) = expand(arrows, goals, nodes, f, k, color - 1);
        assert(ns[k] == nodes[k]);
        let c = move_tiles(arrows, ns[k].config, color - 1);
        if !seen_in(ns, c) {
            let (ns2, fs2) = expand(arrows, goals, nodes, f, k, color);
            let last = ns.len() as int;
            assert(ns2[last].config == c);
            assert forall|i: int| 0 <= i < nodes.len() implies #[trigger] ns2[i] == nodes[i] by {
                assert(ns2[i] == ns[i]);
            }
            assert forall|i: int| 0 <= i < f.len() implies #[trigger] fs2[i] == f[i] by {
                assert(fs2[i] == fs[i]);
            }
            assert forall|i: int| nodes.len() <= i < ns2.len() implies !seen_in(
                nodes,
                (#[trigger] ns2[i]).config,
            ) by {
                if i < last {
                    assert(ns2[i] == ns[i]);
                } else {
                    if seen_in(nodes, c) {
                        let j = choose|j: int| 0 <= j < nodes.len() && (#[trigger] nodes[j]).config == c;
                        assert(ns[j] == nodes[j]);
                    }
                }
            }
            assert forall|i: int, j: int| 0 <= i < j < ns2.len() implies ns2[i].config
                != ns2[j].config by {
                if j < last {
                    assert(ns2[i] == ns[i] && ns2[j] == ns[j]);
                } else {
                    assert(ns2[i] == ns[i]);
                }
            }
            assert forall|m: int| 0 <= m < color implies seen_in(
                ns2,
                #[trigger] move_tiles(arrows, nodes[k].config, m),
            ) by {
                if m < color - 1 {
                    let i = choose|i: int|
                        0 <= i < ns.len() && (#[trigger] ns[i]).config == move_tiles(
                            arrows,
                            nodes[k].config,
                            m,
                        );
                    assert(ns2[i] == ns[i]);
                } else {
                    assert(ns2[last].config == move_tiles(arrows, nodes[k].config, m));
                }
            }
        }
    }
}

/// Each node holds the configuration its moves lead to from `start`, its cost is the
/// number of those moves, and its distance is that configuration's distance to the goal.
pub open spec fn arena_inv(
    arrows: Seq<Arrow>,
    goals: Seq<Option<(i64, i64)>>,
    start: Seq<Tile>,
    nodes: Seq<NodeModel>,
) -> bool {
    forall|k: int|
        0 <= k < nodes.len() ==> {
            let p = path_of(nodes, k);
            &&& p.len() == (#[trigger] nodes[k]).cost
            &&& nodes[k].config == run(arrows, start, p)
            &&& nodes[k].config.len() == start.len()
            &&& nodes[k].distance == distance(nodes[k].config, goals, start.len() as int)
            &&& forall|i: int| 0 <= i < p.len() ==> p[i] < start.len()
            &&& match nodes[k].link {
                Some(l) => 0 <= l.0 < k,
                None => true,
            }
        }
}

pub proof fn lemma_path_prefix(nodes: Seq<NodeModel>, more: Seq<NodeModel>, k: int)
    requires
        0 <= k < nodes.len() <= more.len(),
        forall|i: int| 0 <= i < nodes.len() ==> more[i] == nodes[i],
    ensures
        path_of(more, k) == path_of(nodes, k),
    decreases k,
{
    match nodes[k].link {
        Some(l) => if 0 <= l.0 < k {
            lemma_path_prefix(nodes, more, l.0 as int);
        },
        None => {},
    }
}

pub proof fn lemma_expand_inv(
    arrows: Seq<Arrow>,
    goals: Seq<Option<(i64, i64)>>,
    start: Seq<Tile>,
    nodes: Seq<NodeModel>,
    f: Seq<Entry>,
    k: int,
    color: int,
)
    requires
        0 <= k < nodes.len(),
        color <= start.len() <= usize::MAX,
        arena_inv(arrows, goals, start, nodes),
    ensures
        arena_inv(arrows, goals, start, expand(arrows, goals, nodes, f, k, color).0),
        forall|i: int| 0 <= i < nodes.len() ==> #[trigger] expand(arrows, goals, nodes, f, k, color).0[i] == nodes[i],
        expand(arrows, goals, nodes, f, k, color).0.len() >= nodes.len(),
    decreases color,
{
    if color > 0 {
        lemma_expand_inv(arrows, goals, start, nodes, f, k, color - 1);
        let (ns, fs) = expand(arrows, goals, nodes, f, k, color - 1);
        assert(ns[k] == nodes[k]);
        let c = move_tiles(arrows, ns[k].config, color - 1);
        if !seen_in(ns, c) && ns.len() <= usize::MAX {
            let ns2 = expand(arrows, goals, nodes, f, k, color).0;
            let last = ns.len() as int;
            assert forall|i: int| 0 <= i < ns.len() implies ns2[i] == ns[i] by {}
            assert forall|i: int| 0 <= i < nodes.len() implies #[trigger] ns2[i] == nodes[i] by {
                assert(ns2[i] == ns[i]);
            }
            assert forall|j: int| 0 <= j < ns2.len() implies {
                let p = path_of(ns2, j);
                &&& p.len() == (#[trigger] ns2[j]).cost
                &&& ns2[j].config == run(arrows, start, p)
                &&& ns2[j].config.len() == start.len()
                &&& ns2[j].distance == distance(ns2[j].config, goals, start.len() as int)
                &&& forall|i: int| 0 <= i < p.len() ==> p[i] < start.len()
                &&& match ns2[j].link {
                    Some(l) => 0 <= l.0 < j,
                    None => true,
                }
            } by {
                if j < last {
                    lemma_path_prefix(ns, ns2, j);
                    assert(ns2[j] == ns[j]);
                } else {
                    lemma_path_prefix(ns, ns2, k);
                    let pk = path_of(ns, k);
                    assert(path_of(ns2, j) == pk.push((color - 1) as usize));
                    assert(pk.push((color - 1) as usize).drop_last() =~= pk);
                    lemma_push_shape(arrows, ns[k].config, color - 1, ns[k].config[color - 1].dir);
                }
            }
        }
    }
}

/// What the search returns from an arena that meets `arena_inv`: moves of existing blocks
/// that lead from `start` to a goal, no more of them than the budget.
pub proof fn lemma_search_result(
    arrows: Seq<Arrow>,
    goals: Seq<Option<(i64, i64)>>,
    start: Seq<Tile>,
    budget: int,
    nodes: Seq<NodeModel>,
    f: Seq<Entry>,
)
    requires
        start.len() <= usize::MAX,
        arena_inv(arrows, goals, start, nodes),
    ensures
        search(arrows, goals, budget, start.len(), nodes, f) matches Some(moves) ==> {
            &&& moves.len() <= budget
            &&& is_goal(run(arrows, start, moves), goals)
            &&& forall|i: int| 0 <= i < moves.len() ==> moves[i] < start.len()
        },
    decreases pot_sum(f, start.len(), budget),
{
    let n = start.len();
    if f.len() != 0 && model_ok(nodes, f, budget) {
        lemma_search_step(arrows, goals, budget, n, nodes, f);
        lemma_lowest_index(f);
        let b = lowest_index(f);
        let k = f[b].node as int;
        let f1 = f.remove(b);
        assert(0 <= nodes[k].cost <= budget);
        if nodes[k].distance == 0 {
        } else if nodes[k].cost < budget {
            lemma_expand_inv(arrows, goals, start, nodes, f1, k, n as int);
            let (ns, fs) = expand(arrows, goals, nodes, f1, k, n as int);
            lemma_search_result(arrows, goals, start, budget, ns, fs);
        } else {
            lemma_search_result(arrows, goals, start, budget, nodes, f1);
        }
    }
}

/// A solution is a sequence of moves of the puzzle's blocks, each one step dearer than the
/// last, that brings every block with a goal onto it, and it is no longer than the budget.
pub proof fn lemma_solution_valid(
    arrows: Seq<Arrow>,
    goals: Seq<Option<(i64, i64)>>,
    start: Seq<Tile>,
    max_moves: i32,
)
    requires
        start.len() <= usize::MAX,
    ensures
        outcome(arrows, goals, start, max_moves) matches Some(moves) ==> {
            &&& moves.len() <= budget_of(max_moves)
            &&& is_goal(run(arrows, start, moves), goals)
            &&& forall|i: int| 0 <= i < moves.len() ==> moves[i] < start.len()
        },
{
    let nodes = seq![root(start, goals)];
    let d = distance(start, goals, start.len() as int);
    assert(path_of(nodes, 0) =~= Seq::<usize>::empty());
    assert(arena_inv(arrows, goals, start, nodes));
    lemma_search_result(
        arrows,
        goals,
        start,
        budget_of(max_moves),
        nodes,
        seq![Entry { node: 0, cost: 0, estimate: d as u128 }],
    );
}

/// Whether two vectors of blocks hold the same configuration.
pub fn same_config(a: &Vec<Block>, b: &Vec<Block>) -> (r: bool)
    ensures
        r == (tiles(a@) == tiles(b@)),
{
    if a.len() != b.len() {
        assert(tiles(a@).len() != tiles(b@).len());
        return false;
    }
    let mut i: usize = 0;
    while i < a.len()
        invariant
            a.len() == b.len(),
            i <= a.len(),
            forall|j: int| 0 <= j < i ==> tiles(a@)[j] == tiles(b@)[j],
        decreases a.len() - i,
    {
        let x = a[i];
        let y = b[i];
        if x.x != y.x || x.y != y.y || x.direction != y.direction {
            assert(tiles(a@)[i as int] != tiles(b@)[i as int]);
            return false;
        }
        i = i + 1;
    }
    assert(tiles(a@) =~= tiles(b@));
    true
}

/// Whether some node of `nodes` already holds configuration `c`.
pub fn seen_before(nodes: &Vec<Node>, c: &Vec<Block>) -> (r: bool)
    ensures
        r == exists|k: int| 0 <= k < nodes.len() && tiles(nodes@[k].squares@) == tiles(c@),
{
    let mut k: usize = 0;
    while k < nodes.len()
        invariant
            k <= nodes.len(),
            forall|i: int| 0 <= i < k ==> tiles(nodes@[i].squares@) != tiles(c@),
        decreases nodes.len() - k,
    {
        if same_config(&nodes[k].squares, c) {
            return true;
        }
        k = k + 1;
    }
    false
}

/// The index of the first frontier entry of lowest estimate.
pub fn lowest(f: &Vec<Entry>) -> (r: usize)
    requires
        f.len() > 0,
    ensures
        r < f.len(),
        forall|i: int| 0 <= i < f.len() ==> f@[r as int].estimate <= (#[trigger] f@[i]).estimate,
        forall|i: int| 0 <= i < r ==> f@[r as int].estimate < (#[trigger] f@[i]).estimate,
{
    let mut best: usize = 0;
    let mut i: usize = 1;
    while i < f.len()
        invariant
            1 <= i <= f.len(),
            best < i,
            forall|j: int| 0 <= j < i ==> f@[best as int].estimate <= (#[trigger] f@[j]).estimate,
            forall|j: int| 0 <= j < best ==> f@[best as int].estimate < (#[trigger] f@[j]).estimate,
        decreases f.len() - i,
    {
        if f[i].estimate < f[best].estimate {
            best = i;
        }
        i = i + 1;
    }
    best
}

pub open spec fn link_ok(nodes: Seq<Node>, i: int) -> bool {
    match nodes[i].link {
        Some(l) => 0 <= l.0 < i,
        None => true,
    }
}

/// The moves that led to node `k`, read off the links back to the start.
pub fn path_to(nodes: &Vec<Node>, k: usize) -> (r: Vec<usize>)
    requires
        k < nodes.len(),
        forall|i: int| 0 <= i < nodes.len() ==> #[trigger] link_ok(nodes@, i),
        nodes@[k as int].cost == trail(nodes@, k as int).len(),
    ensures
        r@ == trail(nodes@, k as int),
{
    let ghost whole = trail(nodes@, k as int);
    let total = nodes[k].cost as usize;
    let mut out: Vec<usize> = Vec::new();
    while out.len() < total
        invariant
            out.len() <= total,
        decreases total - out.len(),
    {
        out.push(0);
    }
    let mut cur: usize = k;
    let mut depth: usize = total;
    loop
        invariant_except_break
            cur < nodes.len(),
            forall|i: int| 0 <= i < nodes.len() ==> #[trigger] link_ok(nodes@, i),
            depth <= total,
            out.len() == total,
            whole.len() == total,
            trail(nodes@, cur as int) == whole.subrange(0, depth as int),
            out@.subrange(depth as int, total as int) == whole.subrange(depth as int, total as int),
        ensures
            out@ == whole,
        decreases cur,
    {
        assert(link_ok(nodes@, cur as int));
        match nodes[cur].link {
            Some(l) => {
                let ghost before = trail(nodes@, l.0 as int);
                assert(trail(nodes@, cur as int) == before.push(l.1));
                let ghost old_out = out@;
                let ghost d0 = depth as int;
                assert(whole.subrange(0, d0)[d0 - 1] == l.1);
                depth = depth - 1;
                out.set(depth, l.1);
                assert(before =~= whole.subrange(0, depth as int));
                assert forall|i: int| depth <= i < total implies out@[i] == whole[i] by {
                    if i > depth {
                        assert(old_out.subrange(d0, total as int)[i - d0] == whole.subrange(
                            d0,
                            total as int,
                        )[i - d0]);
                    }
                }
                assert(out@.subrange(depth as int, total as int) =~= whole.subrange(
                    depth as int,
                    total as int,
                ));
                cur = l.0;
            },
            None => {
                assert(trail(nodes@, cur as int) =~= Seq::<usize>::empty());
                assert(depth == 0);
                assert(out@ =~= out@.subrange(0, total as int));
                assert(whole =~= whole.subrange(0, total as int));
                break ;
            },
        }
    }
    out
}

pub open spec fn budget_of(max_moves: i32) -> int {
    if max_moves < 0 {
        0
    } else {
        max_moves as int
    }
}

/// Best-first search from `start` for a configuration where every block with a goal
/// stands on it. The frontier is ordered by cost plus distance to the goal, the earliest
/// entry first among equals; nodes of cost `max_moves` or more are not expanded; and a
/// successor whose configuration some earlier node already holds is dropped, however
/// cheaply it was reached. Returns the indices of the blocks moved, in order.
pub fn astar(
    start: Vec<Block>,
    arrows: &Vec<Arrow>,
    goals: &Vec<Option<(i64, i64)>>,
    max_moves: i32,
) -> (r: Option<Vec<usize>>)
    requires
        start.len() == goals.len(),
        within(start@, reach(0)),
        forall|j: int| 0 <= j < goals.len() ==> small_goal(#[trigger] goals@[j]),
    ensures
        is_goal(tiles(start@), goals@) ==> (r matches Some(p) && p@.len() == 0),
        r matches Some(p) ==> {
            &&& is_goal(run(arrows@, tiles(start@), p@), goals@)
            &&& p@.len() <= budget_of(max_moves)
            &&& forall|i: int| 0 <= i < p@.len() ==> p@[i] < start.len()
        },
        match r {
            Some(p) => outcome(arrows@, goals@, tiles(start@), max_moves) == Some(p@),
            None => outcome(arrows@, goals@, tiles(start@), max_moves) == None::<Seq<usize>>,
        },
{
    let n = start.len();
    let ghost st = tiles(start@);
    let ghost budget = budget_of(max_moves);
    assert forall|j: int| 0 <= j < start.len() implies small(#[trigger] start@[j].x as int) && small(
        start@[j].y as int,
    ) by {
        assert(-reach(0) <= start@[j].x <= reach(0));
    }
    let dist0 = distance_to_goal(&start, goals);
    let mut nodes: Vec<Node> = Vec::new();
    nodes.push(Node { squares: start, cost: 0, distance: dist0, link: None });
    assert(trail(nodes@, 0) =~= Seq::<usize>::empty());
    assert(node_ok(arrows@, goals@, st, nodes@, 0, budget));
    let mut frontier: Vec<Entry> = Vec::new();
    frontier.push(Entry { node: 0, cost: 0, estimate: dist0 });
    let ghost result = outcome(arrows@, goals@, st, max_moves);
    assert(models(nodes@) =~= seq![root(st, goals@)]);
    while frontier.len() > 0
        invariant
            n == st.len(),
            st == tiles(start@),
            budget == budget_of(max_moves),
            goals.len() == n,
            forall|j: int| 0 <= j < goals.len() ==> small_goal(#[trigger] goals@[j]),
            arena_ok(arrows@, goals@, st, nodes@, budget),
            frontier_ok(nodes@, frontier@),
            is_goal(st, goals@) ==> frontier@.len() == 1 && frontier@[0].node == 0,
            search(arrows@, goals@, budget, n as nat, models(nodes@), frontier@) == result,
            result == outcome(arrows@, goals@, st, max_moves),
        decreases pot_sum(frontier@, n as nat, budget),
    {
        let ghost f0 = frontier@;
        let ghost m0 = models(nodes@);
        proof {
            lemma_models_ok(arrows@, goals@, st, nodes@, f0, budget);
            lemma_lowest_index(f0);
        }
        let b = lowest(&frontier);
        assert(b == lowest_index(f0)) by {
            let li = lowest_index(f0);
            if (b as int) < li {
                assert(f0[li].estimate < f0[b as int].estimate);
            } else if li < b {
                assert(f0[b as int].estimate < f0[li].estimate);
            }
        }
        let e = frontier.remove(b);
        proof {
            lemma_pot_sum_remove(f0, n as nat, budget, b as int);
            assert(f0[b as int] == e);
            assert(m0[e.node as int] == node_model(nodes@[e.node as int]));
        }
        let k = e.node;
        assert(node_ok(arrows@, goals@, st, nodes@, k as int, budget));
        if nodes[k].distance == 0 {
            assert forall|i: int| 0 <= i < nodes.len() implies #[trigger] link_ok(nodes@, i) by {
                assert(node_ok(arrows@, goals@, st, nodes@, i, budget));
            }
            let path = path_to(&nodes, k);
            proof {
                lemma_path_models(nodes@, k as int);
                if is_goal(st, goals@) {
                    assert(k == 0);
                    assert(trail(nodes@, 0) =~= Seq::<usize>::empty());
                }
                assert(tiles(nodes@[k as int].squares@).len() == n);
            }
            return Some(path);
        }
        proof {
            if is_goal(st, goals@) {
                assert(node_ok(arrows@, goals@, st, nodes@, 0, budget));
                assert(trail(nodes@, 0) =~= Seq::<usize>::empty());
            }
        }
        let cost = nodes[k].cost;
        if (cost as i64) < (max_moves as i64) {
            let mut color: usize = 0;
            while color < n
                invariant
                    n == st.len(),
                    budget == budget_of(max_moves),
                    goals.len() == n,
                    forall|j: int| 0 <= j < goals.len() ==> small_goal(#[trigger] goals@[j]),
                    arena_ok(arrows@, goals@, st, nodes@, budget),
                    frontier_ok(nodes@, frontier@),
                    !is_goal(st, goals@),
                    k < nodes.len(),
                    nodes@[k as int].cost == cost,
                    cost < budget,
                    color <= n,
                    (models(nodes@), frontier@) == expand(
                        arrows@,
                        goals@,
                        m0,
                        f0.remove(b as int),
                        k as int,
                        color as int,
                    ),
                    pot_sum(frontier@, n as nat, budget) + potential(n as nat, cost as int, budget)
                        <= pot_sum(f0, n as nat, budget) + color * potential(
                        n as nat,
                        cost + 1,
                        budget,
                    ),
                decreases n - color,
            {
                assert(node_ok(arrows@, goals@, st, nodes@, k as int, budget));
                let ghost here = tiles(nodes@[k as int].squares@);
                let ghost walk = trail(nodes@, k as int);
                assert forall|j: int|
                    0 <= j < nodes@[k as int].squares.len() implies in_bound(
                    #[trigger] nodes@[k as int].squares@[j]@,
                ) by {
                    assert(-reach(cost as int) <= nodes@[k as int].squares@[j].x <= reach(
                        cost as int,
                    ));
                }
                let next = move_square(&nodes[k].squares, arrows, color);
                proof {
                    lemma_push_shape(arrows@, here, color as int, here[color as int].dir);
                    assert(walk.push(color).drop_last() =~= walk);
                }
                assert(within(next@, reach(cost + 1))) by {
                    assert forall|j: int| 0 <= j < next@.len() implies -reach(cost + 1) <= (
                    #[trigger] next@[j]).x <= reach(cost + 1) && -reach(cost + 1) <= next@[j].y
                        <= reach(cost + 1) by {
                        assert(tiles(next@)[j] == next@[j]@);
                        assert(here[j] == nodes@[k as int].squares@[j]@);
                    }
                }
                let seen = seen_before(&nodes, &next);
                proof {
                    let ms = models(nodes@);
                    assert(ms[k as int] == node_model(nodes@[k as int]));
                    if seen {
                        let i = choose|i: int|
                            0 <= i < nodes.len() && tiles(nodes@[i].squares@) == tiles(next@);
                        assert(ms[i] == node_model(nodes@[i]));
                    } else {
                        assert forall|i: int| 0 <= i < ms.len() implies (#[trigger] ms[i]).config
                            != tiles(next@) by {
                            assert(ms[i] == node_model(nodes@[i]));
                        }
                    }
                }
                if !seen {
                    assert forall|j: int| 0 <= j < next.len() implies small(
                        #[trigger] next@[j].x as int,
                    ) && small(next@[j].y as int) by {
                        assert(-reach(cost + 1) <= next@[j].x <= reach(cost + 1));
                    }
                    let dist = distance_to_goal(&next, goals);
                    let ghost old_nodes = nodes@;
                    let ghost old_frontier = frontier@;
                    let ghost nd_model = NodeModel {
                        config: tiles(next@),
                        cost: cost + 1,
                        distance: dist as int,
                        link: Some((k, color)),
                    };
                    let index = nodes.len();
                    nodes.push(Node { squares: next, cost: cost + 1, distance: dist, link: Some((k, color)) });
                    proof {
                        assert forall|i: int| 0 <= i < old_nodes.len() implies #[trigger] node_ok(
                            arrows@,
                            goals@,
                            st,
                            nodes@,
                            i,
                            budget,
                        ) by {
                            assert(node_ok(arrows@, goals@, st, old_nodes, i, budget));
                            lemma_trail_prefix(old_nodes, nodes@, i);
                            assert(nodes@[i] == old_nodes[i]);
                        }
                        lemma_trail_prefix(old_nodes, nodes@, k as int);
                        assert(trail(nodes@, index as int) == walk.push(color));
                        assert(node_ok(arrows@, goals@, st, nodes@, index as int, budget));
                    }
                    frontier.push(Entry { node: index, cost: cost + 1, estimate: (cost + 1) as u128 + dist });
                    assert(frontier@.drop_last() =~= old_frontier);
                    assert(models(nodes@) =~= models(old_nodes).push(nd_model));
                }
                assert(pot_sum(frontier@, n as nat, budget) + potential(n as nat, cost as int, budget)
                    <= pot_sum(f0, n as nat, budget) + (color + 1) * potential(
                    n as nat,
                    cost + 1,
                    budget,
                )) by (nonlinear_arith)
                    requires
                        pot_sum(frontier@, n as nat, budget) <= pot_sum(f0, n as nat, budget) + color * potential(n as nat, cost + 1, budget) - potential(n as nat, cost as int, budget) + potential(n as nat, cost + 1, budget),
                ;
                color = color + 1;
            }
            assert(potential(n as nat, cost as int, budget) == 1 + n * potential(
                n as nat,
                cost + 1,
                budget,
            ));
        }
    }
    None
}

} // verus!
