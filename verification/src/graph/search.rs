//! Path search in a graph: depth first, breadth first, and cheapest first
//! under a heuristic. The three share one agenda of partial paths and differ
//! in which path they take from it.

use super::{Graph, GraphView, NodeIndex};
use std::collections::{HashMap, HashSet};
use vstd::prelude::*;
use vstd::std_specs::hash::*;

verus! {

/// A partial path with its cost so far and its estimated total cost.
pub struct WeightedPath {
    pub current_cost: usize,
    pub total_cost: usize,
    pub path: Vec<NodeIndex>,
}

/// Which path leaves the agenda first.
#[derive(Clone, Copy, Debug, PartialEq, Eq, Structural)]
pub enum Order {
    /// The path added last: depth first.
    Newest,
    /// The path added first: breadth first.
    Oldest,
    /// The path of least estimated total cost, the oldest of them.
    Cheapest,
}

/// The positions of a list of nodes.
pub open spec fn ids(path: Seq<NodeIndex>) -> Seq<usize> {
    path.map_values(|node: NodeIndex| node.0)
}

/// The mathematical content of a [`WeightedPath`].
pub struct Candidate {
    pub current_cost: usize,
    pub total_cost: usize,
    pub path: Seq<usize>,
}

impl View for WeightedPath {
    type V = Candidate;

    open spec fn view(&self) -> Candidate {
        Candidate {
            current_cost: self.current_cost,
            total_cost: self.total_cost,
            path: ids(self.path@),
        }
    }
}

/// The contents of an agenda.
pub open spec fn candidates(agenda: Seq<WeightedPath>) -> Seq<Candidate> {
    agenda.map_values(|entry: WeightedPath| entry@)
}

/// The paths of the candidates.
pub open spec fn paths(agenda: Seq<Candidate>) -> Seq<Seq<usize>> {
    agenda.map_values(|entry: Candidate| entry.path)
}

/// The estimates of a table, if there is one.
pub open spec fn table_of(heuristic: Option<HashMap<usize, usize>>) -> Option<Map<usize, usize>> {
    match heuristic {
        Some(table) => Some(table@),
        None => None,
    }
}

/// The estimate for a node: its entry in the table, or nothing without one.
pub open spec fn estimate_of(table: Option<Map<usize, usize>>, node: usize) -> usize {
    match table {
        Some(entries) => entries[node],
        None => 0,
    }
}

/// The sum of two costs, or the largest machine word if the sum does not
/// fit one.
pub open spec fn saturated(a: usize, b: usize) -> usize {
    if a + b > usize::MAX {
        usize::MAX
    } else {
        (a + b) as usize
    }
}

/// The candidate that a hop adds to the path of `entry`.
pub open spec fn longer(entry: Candidate, hop: (usize, usize), table: Option<Map<usize, usize>>) -> Candidate {
    let cost = saturated(entry.current_cost, hop.1);
    Candidate {
        current_cost: cost,
        total_cost: saturated(cost, estimate_of(table, hop.0)),
        path: entry.path.push(hop.0),
    }
}

/// The candidates that the first `n` of the hops add to the path of
/// `entry`: one for every hop to a node that was not extended.
pub open spec fn added(
    entry: Candidate,
    extended: Set<usize>,
    hops: Seq<(usize, usize)>,
    table: Option<Map<usize, usize>>,
    n: int,
) -> Seq<Candidate>
    decreases n,
{
    if n <= 0 {
        Seq::empty()
    } else if extended.contains(hops[n - 1].0) {
        added(entry, extended, hops, table, n - 1)
    } else {
        added(entry, extended, hops, table, n - 1).push(longer(entry, hops[n - 1], table))
    }
}

/// The position of the first of the cheapest of the first `n` candidates.
pub open spec fn first_cheapest(agenda: Seq<Candidate>, n: int) -> int
    decreases n,
{
    if n <= 1 {
        0
    } else {
        let rest = first_cheapest(agenda, n - 1);
        if agenda[n - 1].total_cost < agenda[rest].total_cost {
            n - 1
        } else {
            rest
        }
    }
}

/// The position of the candidate that leaves the agenda next.
pub open spec fn picked(agenda: Seq<Candidate>, order: Order) -> int {
    match order {
        Order::Newest => agenda.len() - 1,
        Order::Oldest => 0,
        Order::Cheapest => first_cheapest(agenda, agenda.len() as int),
    }
}

/// What the search finds from an agenda in at most `fuel` steps. In a step
/// the candidate that `order` picks leaves the agenda; if its path ends in
/// `target`, that path is found; otherwise its last node is extended and
/// the candidates of its hops join the agenda at the end.
pub open spec fn explored<T>(
    graph: GraphView<T>,
    order: Order,
    table: Option<Map<usize, usize>>,
    target: usize,
    agenda: Seq<Candidate>,
    extended: Set<usize>,
    fuel: nat,
) -> Option<Seq<usize>>
    decreases fuel,
{
    if fuel == 0 || agenda.len() == 0 {
        None
    } else {
        let entry = agenda[picked(agenda, order)];
        let last = entry.path.last();
        if last == target {
            Some(entry.path)
        } else {
            let hops = graph.outgoing[last as int];
            explored(
                graph,
                order,
                table,
                target,
                agenda.remove(picked(agenda, order)) + added(
                    entry,
                    extended.insert(last),
                    hops,
                    table,
                    hops.len() as int,
                ),
                extended.insert(last),
                (fuel - 1) as nat,
            )
        }
    }
}

/// The path that the search finds from `source` to `target`, if it finds one.
pub open spec fn search_result<T>(
    graph: GraphView<T>,
    order: Order,
    table: Option<Map<usize, usize>>,
    source: usize,
    target: usize,
) -> Option<Seq<usize>> {
    let first = Candidate {
        current_cost: 0,
        total_cost: estimate_of(table, source),
        path: seq![source],
    };
    explored(
        graph,
        order,
        table,
        target,
        seq![first],
        Set::empty(),
        worth(1, graph.values.len(), (graph.edge_bound() + 1) as nat),
    )
}

/// `base` to the power of `exponent`.
pub open spec fn power(base: nat, exponent: nat) -> nat
    decreases exponent,
{
    if exponent == 0 {
        1
    } else {
        base * power(base, (exponent - 1) as nat)
    }
}

/// The weight of a path of `len` nodes in the measure of the work left:
/// more than the weights of all the paths that can come from it.
pub open spec fn worth(len: nat, nodes: nat, base: nat) -> nat {
    if len <= nodes + 1 {
        power(base, (nodes + 1 - len) as nat)
    } else {
        0
    }
}

/// The work left: the weights of the paths of an agenda, added up.
pub open spec fn work_left(paths: Seq<Seq<usize>>, nodes: nat, base: nat) -> nat
    decreases paths.len(),
{
    if paths.len() == 0 {
        0
    } else {
        work_left(paths.drop_last(), nodes, base) + worth(paths.last().len(), nodes, base)
    }
}

/// Whether `path` may stand in the agenda: it leads from `source` along
/// edges of the graph, visits no node twice, and every node before its last
/// was extended.
pub open spec fn admissible<T>(
    graph: GraphView<T>,
    source: usize,
    extended: Set<usize>,
    path: Seq<usize>,
) -> bool {
    &&& graph.is_path(path)
    &&& path[0] == source
    &&& path.no_duplicates()
    &&& forall|k: int| 0 <= k < path.len() - 1 ==> extended.contains(#[trigger] path[k])
}

/// Whether `rest` leads from the end of `path` to `target` through nodes
/// that were not extended.
pub open spec fn continues_to<T>(
    graph: GraphView<T>,
    path: Seq<usize>,
    extended: Set<usize>,
    target: usize,
    rest: Seq<usize>,
) -> bool {
    &&& graph.is_path(rest)
    &&& path.len() > 0
    &&& rest[0] == path.last()
    &&& rest.last() == target
    &&& forall|k: int| 1 <= k < rest.len() ==> !extended.contains(#[trigger] rest[k])
}

/// Whether some path of the agenda can still be continued to `target`.
pub open spec fn promising<T>(
    graph: GraphView<T>,
    paths: Seq<Seq<usize>>,
    extended: Set<usize>,
    target: usize,
) -> bool {
    exists|c: int, rest: Seq<usize>|
        0 <= c < paths.len() && #[trigger] continues_to(graph, paths[c], extended, target, rest)
}

/// A power of a positive base is positive.
pub proof fn lemma_power_positive(base: nat, exponent: nat)
    requires
        base > 0,
    ensures
        power(base, exponent) > 0,
    decreases exponent,
{
    if exponent > 0 {
        lemma_power_positive(base, (exponent - 1) as nat);
        assert(base * power(base, (exponent - 1) as nat) > 0) by (nonlinear_arith)
            requires
                base > 0,
                power(base, (exponent - 1) as nat) > 0,
        ;
    }
}

/// Adding a path adds its weight.
pub proof fn lemma_work_push(paths: Seq<Seq<usize>>, path: Seq<usize>, nodes: nat, base: nat)
    ensures
        work_left(paths.push(path), nodes, base) == work_left(paths, nodes, base) + worth(
            path.len(),
            nodes,
            base,
        ),
{
    assert(paths.push(path).drop_last() =~= paths);
}

/// Taking a path away takes its weight away.
pub proof fn lemma_work_remove(paths: Seq<Seq<usize>>, i: int, nodes: nat, base: nat)
    requires
        0 <= i < paths.len(),
    ensures
        work_left(paths.remove(i), nodes, base) + worth(paths[i].len(), nodes, base) == work_left(
            paths,
            nodes,
            base,
        ),
    decreases paths.len(),
{
    if i == paths.len() - 1 {
        assert(paths.remove(i) =~= paths.drop_last());
    } else {
        assert(paths.remove(i).drop_last() =~= paths.drop_last().remove(i));
        assert(paths.remove(i).last() == paths.last());
        lemma_work_remove(paths.drop_last(), i, nodes, base);
    }
}

/// A list of different numbers below `n` has at most `n` members.
pub proof fn lemma_pigeonhole(s: Seq<usize>, n: nat)
    requires
        s.no_duplicates(),
        forall|k: int| 0 <= k < s.len() ==> (#[trigger] s[k]) < n,
    ensures
        s.len() <= n,
{
    let as_int = s.map_values(|x: usize| x as int);
    assert forall|i: int, j: int|
        0 <= i < as_int.len() && 0 <= j < as_int.len() && i != j implies as_int[i]
        != as_int[j] by {
        assert(s[i] != s[j]);
    }
    as_int.unique_seq_to_set();
    vstd::set_lib::lemma_int_range(0, n as int);
    assert forall|x: int| as_int.to_set().contains(x) implies vstd::set_lib::set_int_range(
        0,
        n as int,
    ).contains(x) by {
        let k = choose|k: int| 0 <= k < as_int.len() && as_int[k] == x;
        assert(s[k] < n);
    }
    vstd::set_lib::lemma_len_subset(as_int.to_set(), vstd::set_lib::set_int_range(0, n as int));
}

/// A value that occurs in a list at or after `from` has a last occurrence.
pub proof fn lemma_last_occurrence(s: Seq<usize>, x: usize, from: int) -> (m: int)
    requires
        0 <= from,
        exists|k: int| from <= k < s.len() && s[k] == x,
    ensures
        from <= m < s.len(),
        s[m] == x,
        forall|k: int| m < k < s.len() ==> s[k] != x,
    decreases s.len(),
{
    if s.last() == x {
        (s.len() - 1) as int
    } else {
        let k = choose|k: int| from <= k < s.len() && s[k] == x;
        assert(s.drop_last()[k] == x);
        let m = lemma_last_occurrence(s.drop_last(), x, from);
        assert forall|j: int| m < j < s.len() implies s[j] != x by {
            if j < s.len() - 1 {
                assert(s.drop_last()[j] == s[j]);
            }
        }
        m
    }
}

/// The position in the agenda of the path that leaves it next.
fn pick(agenda: &Vec<WeightedPath>, order: Order) -> (index: usize)
    requires
        agenda.len() > 0,
    ensures
        index < agenda.len(),
        index == picked(candidates(agenda@), order),
{
    match order {
        Order::Newest => agenda.len() - 1,
        Order::Oldest => 0,
        Order::Cheapest => {
            let mut best: usize = 0;
            let mut k: usize = 1;
            while k < agenda.len()
                invariant
                    best < k <= agenda.len(),
                    best == first_cheapest(candidates(agenda@), k as int),
                decreases agenda.len() - k,
            {
                if agenda[k].total_cost < agenda[best].total_cost {
                    best = k;
                }
                k += 1;
            }
            best
        },
    }
}

/// The first of the cheapest is one of the candidates.
pub proof fn lemma_first_cheapest(agenda: Seq<Candidate>, n: int)
    requires
        0 < n <= agenda.len(),
    ensures
        0 <= first_cheapest(agenda, n) < n,
    decreases n,
{
    if n > 1 {
        lemma_first_cheapest(agenda, n - 1);
    }
}

/// A copy of a path.
fn copy_path(path: &Vec<NodeIndex>) -> (copy: Vec<NodeIndex>)
    ensures
        copy@ == path@,
{
    let mut copy: Vec<NodeIndex> = Vec::new();
    let mut k: usize = 0;
    while k < path.len()
        invariant
            k <= path.len(),
            copy@ == path@.take(k as int),
        decreases path.len() - k,
    {
        copy.push(path[k]);
        assert(path@.take(k + 1) =~= path@.take(k as int).push(path@[k as int]));
        k += 1;
    }
    assert(path@.take(k as int) =~= path@);
    copy
}

/// The estimate for a node: its entry in the table, or nothing without one.
fn estimate(heuristic: &Option<HashMap<usize, usize>>, node: usize) -> (cost: usize)
    requires
        heuristic matches Some(table) ==> table@.contains_key(node),
    ensures
        cost == estimate_of(table_of(*heuristic), node),
{
    broadcast use group_hash_axioms;

    match heuristic {
        Some(table) => match table.get(&node) {
            Some(cost) => *cost,
            None => 0,
        },
        None => 0,
    }
}

/// What a search may answer: a path from `source` to `target` that visits
/// no node twice, or nothing when no path leads there.
pub open spec fn answers<T>(
    graph: GraphView<T>,
    source: usize,
    target: usize,
    found: Option<Vec<NodeIndex>>,
) -> bool {
    match found {
        Some(path) => {
            &&& graph.is_path(ids(path@))
            &&& ids(path@)[0] == source
            &&& ids(path@).last() == target
            &&& ids(path@).no_duplicates()
        },
        None => !graph.reaches(source, target),
    }
}

/// Whether every path of the agenda is admissible.
pub open spec fn all_admissible<T>(
    graph: GraphView<T>,
    source: usize,
    extended: Set<usize>,
    agenda: Seq<Candidate>,
) -> bool {
    forall|c: int|
        0 <= c < agenda.len() ==> admissible(graph, source, extended, (#[trigger] agenda[c]).path)
}

/// Whether the table holds an estimate for every node below `nodes`.
pub open spec fn covers(heuristic: Option<HashMap<usize, usize>>, nodes: nat) -> bool {
    heuristic matches Some(table) ==> forall|i: usize| i < nodes ==> table@.contains_key(i)
}

/// A path that was taken from the agenda stays admissible when a hop to a
/// node that was not extended is added to it.
pub proof fn lemma_longer_admissible<T>(
    graph: GraphView<T>,
    source: usize,
    extended: Set<usize>,
    taken: Seq<usize>,
    node: usize,
)
    requires
        graph.is_path(taken),
        taken[0] == source,
        taken.no_duplicates(),
        forall|k: int| 0 <= k < taken.len() ==> extended.contains(#[trigger] taken[k]),
        graph.has_edge(taken.last() as int, node as int),
        node < graph.values.len(),
        !extended.contains(node),
    ensures
        admissible(graph, source, extended, taken.push(node)),
        taken.len() + 1 <= graph.values.len(),
{
    let grown = taken.push(node);
    assert forall|k: int| 0 <= k < grown.len() - 1 implies extended.contains(
        #[trigger] grown[k],
    ) by {
        assert(grown[k] == taken[k]);
    }
    assert forall|a: int, b: int|
        0 <= a < grown.len() && 0 <= b < grown.len() && a != b implies grown[a] != grown[b] by {
        if a < taken.len() && b < taken.len() {
            assert(taken[a] != taken[b]);
        } else if a < taken.len() {
            assert(extended.contains(taken[a]));
        } else {
            assert(extended.contains(taken[b]));
        }
    }
    assert forall|k: int| 0 <= k < grown.len() implies (#[trigger] grown[k])
        < graph.values.len() by {
        if k < taken.len() {
            assert(grown[k] == taken[k]);
        }
    }
    assert forall|k: int| 0 <= k < grown.len() - 1 implies graph.has_edge(
        #[trigger] grown[k] as int,
        grown[k + 1] as int,
    ) by {
        if k < taken.len() - 1 {
            assert(grown[k] == taken[k] && grown[k + 1] == taken[k + 1]);
            assert(graph.has_edge(taken[k] as int, taken[k + 1] as int));
        }
    }
    lemma_pigeonhole(grown, graph.values.len());
}

/// The end of a walk is a walk of its own.
pub proof fn lemma_rest_of_path<T>(graph: GraphView<T>, rest: Seq<usize>, from: int)
    requires
        graph.is_path(rest),
        0 <= from < rest.len(),
    ensures
        graph.is_path(rest.subrange(from, rest.len() as int)),
        rest.subrange(from, rest.len() as int)[0] == rest[from],
        rest.subrange(from, rest.len() as int).last() == rest.last(),
{
    let onward = rest.subrange(from, rest.len() as int);
    assert forall|k: int| 0 <= k < onward.len() implies (#[trigger] onward[k])
        < graph.values.len() by {
        assert(onward[k] == rest[from + k]);
    }
    assert forall|k: int| 0 <= k < onward.len() - 1 implies graph.has_edge(
        #[trigger] onward[k] as int,
        onward[k + 1] as int,
    ) by {
        assert(onward[k] == rest[from + k]);
        assert(onward[k + 1] == rest[from + k + 1]);
        assert(graph.has_edge(rest[from + k] as int, rest[from + k + 1] as int));
    }
}

/// A continuation that avoids the node just extended is still one.
pub proof fn lemma_continuation_kept<T>(
    graph: GraphView<T>,
    path: Seq<usize>,
    seen: Set<usize>,
    last: usize,
    target: usize,
    rest: Seq<usize>,
)
    requires
        continues_to(graph, path, seen, target, rest),
        forall|k: int| 1 <= k < rest.len() ==> rest[k] != last,
    ensures
        continues_to(graph, path, seen.insert(last), target, rest),
{
    assert forall|k: int| 1 <= k < rest.len() implies !seen.insert(last).contains(
        #[trigger] rest[k],
    ) by {
        assert(rest[k] != last);
        assert(!seen.contains(rest[k]));
    }
}

/// A continuation that passes the node just extended goes on, after the
/// last time it does, through a hop to a node that was not extended.
pub proof fn lemma_continuation_moved<T>(
    graph: GraphView<T>,
    seen: Set<usize>,
    last: usize,
    target: usize,
    rest: Seq<usize>,
    m: int,
) -> (j: int)
    requires
        graph.is_path(rest),
        rest.last() == target,
        forall|k: int| 1 <= k < rest.len() ==> !seen.contains(#[trigger] rest[k]),
        last != target,
        0 <= m < rest.len(),
        rest[m] == last,
        forall|k: int| m < k < rest.len() ==> rest[k] != last,
    ensures
        m + 1 < rest.len(),
        0 <= j < graph.outgoing[last as int].len(),
        graph.outgoing[last as int][j].0 == rest[m + 1],
        !seen.insert(last).contains(rest[m + 1]),
        forall|path: Seq<usize>|
            path.len() > 0 && path.last() == rest[m + 1] ==> #[trigger] continues_to(
                graph,
                path,
                seen.insert(last),
                target,
                rest.subrange(m + 1, rest.len() as int),
            ),
{
    let now = seen.insert(last);
    let onward = rest.subrange(m + 1, rest.len() as int);
    assert(graph.has_edge(rest[m] as int, rest[m + 1] as int));
    let j = choose|j: int|
        0 <= j < graph.outgoing[last as int].len() && (#[trigger] graph.outgoing[last as int][j]).0
            == rest[m + 1];
    assert(!seen.contains(rest[m + 1]));
    lemma_rest_of_path(graph, rest, m + 1);
    assert forall|k: int| 1 <= k < onward.len() implies !now.contains(#[trigger] onward[k]) by {
        assert(onward[k] == rest[m + 1 + k]);
        assert(!seen.contains(rest[m + 1 + k]));
    }
    j
}

/// Taking a path from a promising agenda and extending its last node leaves
/// the agenda promising, unless the path ends in the target.
pub proof fn lemma_stays_promising<T>(
    graph: GraphView<T>,
    before: Seq<Seq<usize>>,
    index: int,
    seen: Set<usize>,
    target: usize,
    after: Seq<Seq<usize>>,
)
    requires
        0 <= index < before.len(),
        before[index].len() > 0,
        before[index].last() != target,
        before[index].last() < graph.outgoing.len(),
        promising(graph, before, seen, target),
        after.len() >= before.len() - 1,
        after.take(before.len() - 1) == before.remove(index),
        forall|j: int|
            0 <= j < graph.outgoing[before[index].last() as int].len() && !seen.insert(
                before[index].last(),
            ).contains((#[trigger] graph.outgoing[before[index].last() as int][j]).0)
                ==> exists|c: int|
                0 <= c < after.len() && #[trigger] after[c] == before[index].push(
                    graph.outgoing[before[index].last() as int][j].0,
                ),
    ensures
        promising(graph, after, seen.insert(before[index].last()), target),
{
    let taken = before[index];
    let last = taken.last();
    let now = seen.insert(last);
    let all = graph.outgoing[last as int];
    let (c, rest) = choose|c: int, rest: Seq<usize>|
        0 <= c < before.len() && #[trigger] continues_to(graph, before[c], seen, target, rest);
    if c != index && forall|k: int| 1 <= k < rest.len() ==> rest[k] != last {
        let at = if c < index {
            c
        } else {
            c - 1
        };
        assert(before.remove(index)[at] == before[c]);
        assert(after[at] == after.take(before.len() - 1)[at]);
        lemma_continuation_kept(graph, before[c], seen, last, target, rest);
        assert(continues_to(graph, after[at], now, target, rest));
    } else {
        let from: int = if c == index {
            0
        } else {
            1
        };
        let m = lemma_last_occurrence(rest, last, from);
        let j = lemma_continuation_moved(graph, seen, last, target, rest, m);
        assert(!now.contains(all[j].0));
        let d = choose|d: int| 0 <= d < after.len() && #[trigger] after[d] == taken.push(all[j].0);
        assert(after[d].last() == rest[m + 1]);
        assert(continues_to(
            graph,
            after[d],
            now,
            target,
            rest.subrange(m + 1, rest.len() as int),
        ));
    }
}

/// Extending a path costs less work than the path was worth.
pub proof fn lemma_work_shrinks(
    rest: nat,
    pushed: nat,
    hops: nat,
    len: nat,
    nodes: nat,
    base: nat,
)
    requires
        pushed <= hops < base,
        1 <= len <= nodes,
    ensures
        rest + pushed * worth(len + 1, nodes, base) < rest + worth(len, nodes, base),
{
    let unit = worth(len + 1, nodes, base);
    assert(worth(len, nodes, base) == base * unit);
    lemma_power_positive(base, (nodes - len) as nat);
    assert(pushed * unit < base * unit) by (nonlinear_arith)
        requires
            pushed < base,
            unit > 0,
    ;
}

/// The work of two agendas put together is the work of both.
pub proof fn lemma_work_add(a: Seq<Seq<usize>>, b: Seq<Seq<usize>>, nodes: nat, base: nat)
    ensures
        work_left(a + b, nodes, base) == work_left(a, nodes, base) + work_left(b, nodes, base),
    decreases b.len(),
{
    if b.len() == 0 {
        assert(a + b =~= a);
    } else {
        assert((a + b).drop_last() =~= a + b.drop_last());
        lemma_work_add(a, b.drop_last(), nodes, base);
    }
}

/// What the hops of an extended node add to the agenda: admissible paths,
/// one node longer than the path that was extended, one for every hop to a
/// node that was not extended.
pub proof fn lemma_added<T>(
    graph: GraphView<T>,
    source: usize,
    entry: Candidate,
    seen: Set<usize>,
    table: Option<Map<usize, usize>>,
    n: int,
)
    requires
        graph.regular(),
        graph.is_path(entry.path),
        entry.path[0] == source,
        entry.path.no_duplicates(),
        forall|k: int| 0 <= k < entry.path.len() ==> seen.contains(#[trigger] entry.path[k]),
        0 <= n <= graph.outgoing[entry.path.last() as int].len(),
    ensures
        ({
            let hops = graph.outgoing[entry.path.last() as int];
            let more = added(entry, seen, hops, table, n);
            let nodes = graph.values.len();
            let base = (graph.edge_bound() + 1) as nat;
            &&& more.len() <= n
            &&& all_admissible(graph, source, seen, more)
            &&& more.len() > 0 ==> entry.path.len() + 1 <= nodes
            &&& work_left(paths(more), nodes, base) == more.len() * worth(
                entry.path.len() + 1,
                nodes,
                base,
            )
            &&& forall|j: int|
                0 <= j < n && !seen.contains((#[trigger] hops[j]).0) ==> exists|c: int|
                    0 <= c < more.len() && (#[trigger] more[c]).path == entry.path.push(hops[j].0)
        }),
    decreases n,
{
    let hops = graph.outgoing[entry.path.last() as int];
    let more = added(entry, seen, hops, table, n);
    let nodes = graph.values.len();
    let base = (graph.edge_bound() + 1) as nat;
    let unit = worth(entry.path.len() + 1, nodes, base);
    if n > 0 {
        lemma_added(graph, source, entry, seen, table, n - 1);
        let fewer = added(entry, seen, hops, table, n - 1);
        let hop = hops[n - 1];
        if !seen.contains(hop.0) {
            let new = longer(entry, hop, table);
            assert(graph.has_edge(entry.path.last() as int, hop.0 as int));
            lemma_longer_admissible(graph, source, seen, entry.path, hop.0);
            assert forall|c: int| 0 <= c < more.len() implies admissible(
                graph,
                source,
                seen,
                (#[trigger] more[c]).path,
            ) by {
                if c < fewer.len() {
                    assert(more[c] == fewer[c]);
                }
            }
            assert(paths(more) =~= paths(fewer).push(new.path));
            lemma_work_push(paths(fewer), new.path, nodes, base);
            assert((fewer.len() + 1) * unit == fewer.len() * unit + unit) by (nonlinear_arith);
            assert forall|j: int|
                0 <= j < n && !seen.contains((#[trigger] hops[j]).0) implies exists|c: int|
                0 <= c < more.len() && (#[trigger] more[c]).path == entry.path.push(hops[j].0) by {
                if j < n - 1 {
                    let c = choose|c: int|
                        0 <= c < fewer.len() && (#[trigger] fewer[c]).path == entry.path.push(
                            hops[j].0,
                        );
                    assert(more[c] == fewer[c]);
                } else {
                    assert(more[fewer.len() as int].path == entry.path.push(hops[j].0));
                }
            }
        }
    } else {
        assert(paths(more) =~= Seq::<Seq<usize>>::empty());
    }
}

/// A step of the search keeps the agenda admissible and leaves less work.
pub proof fn lemma_step<T>(
    graph: GraphView<T>,
    source: usize,
    table: Option<Map<usize, usize>>,
    agenda: Seq<Candidate>,
    extended: Set<usize>,
    index: int,
)
    requires
        graph.regular(),
        all_admissible(graph, source, extended, agenda),
        0 <= index < agenda.len(),
    ensures
        ({
            let entry = agenda[index];
            let last = entry.path.last();
            let hops = graph.outgoing[last as int];
            let after = agenda.remove(index) + added(
                entry,
                extended.insert(last),
                hops,
                table,
                hops.len() as int,
            );
            let nodes = graph.values.len();
            let base = (graph.edge_bound() + 1) as nat;
            &&& all_admissible(graph, source, extended.insert(last), after)
            &&& work_left(paths(after), nodes, base) < work_left(paths(agenda), nodes, base)
        }),
{
    let entry = agenda[index];
    let last = entry.path.last();
    let seen = extended.insert(last);
    let hops = graph.outgoing[last as int];
    let more = added(entry, seen, hops, table, hops.len() as int);
    let rest = agenda.remove(index);
    let after = rest + more;
    let nodes = graph.values.len();
    let base = (graph.edge_bound() + 1) as nat;
    assert(admissible(graph, source, extended, entry.path));
    assert forall|k: int| 0 <= k < entry.path.len() implies seen.contains(
        #[trigger] entry.path[k],
    ) by {
        if k < entry.path.len() - 1 {
            assert(extended.contains(entry.path[k]));
        }
    }
    lemma_added(graph, source, entry, seen, table, hops.len() as int);
    assert forall|c: int| 0 <= c < after.len() implies admissible(
        graph,
        source,
        seen,
        (#[trigger] after[c]).path,
    ) by {
        if c < rest.len() {
            let at = if c < index {
                c
            } else {
                c + 1
            };
            assert(after[c] == agenda[at]);
            assert(admissible(graph, source, extended, agenda[at].path));
        } else {
            assert(after[c] == more[c - rest.len()]);
        }
    }
    assert(paths(after) =~= paths(rest) + paths(more));
    assert(paths(rest) =~= paths(agenda).remove(index));
    lemma_work_add(paths(rest), paths(more), nodes, base);
    lemma_work_remove(paths(agenda), index, nodes, base);
    lemma_pigeonhole(entry.path, nodes);
    lemma_work_shrinks(
        work_left(paths(rest), nodes, base),
        more.len(),
        hops.len(),
        entry.path.len(),
        nodes,
        base,
    );
}

/// The position that is picked is a position of the agenda.
pub proof fn lemma_picked(agenda: Seq<Candidate>, order: Order)
    requires
        agenda.len() > 0,
    ensures
        0 <= picked(agenda, order) < agenda.len(),
{
    lemma_first_cheapest(agenda, agenda.len() as int);
}

/// Fuel beyond the work that is left changes nothing: the search ends
/// before it is used up.
pub proof fn lemma_fuel<T>(
    graph: GraphView<T>,
    order: Order,
    source: usize,
    table: Option<Map<usize, usize>>,
    target: usize,
    agenda: Seq<Candidate>,
    extended: Set<usize>,
    fuel: nat,
    more_fuel: nat,
)
    requires
        graph.regular(),
        all_admissible(graph, source, extended, agenda),
        work_left(paths(agenda), graph.values.len(), (graph.edge_bound() + 1) as nat) <= fuel
            <= more_fuel,
    ensures
        explored(graph, order, table, target, agenda, extended, fuel) == explored(
            graph,
            order,
            table,
            target,
            agenda,
            extended,
            more_fuel,
        ),
    decreases fuel,
{
    let nodes = graph.values.len();
    let base = (graph.edge_bound() + 1) as nat;
    if agenda.len() > 0 {
        lemma_picked(agenda, order);
        let index = picked(agenda, order);
        let entry = agenda[index];
        let last = entry.path.last();
        lemma_step(graph, source, table, agenda, extended, index);
        if last != target {
            let hops = graph.outgoing[last as int];
            let after = agenda.remove(index) + added(
                entry,
                extended.insert(last),
                hops,
                table,
                hops.len() as int,
            );
            lemma_fuel(
                graph,
                order,
                source,
                table,
                target,
                after,
                extended.insert(last),
                (fuel - 1) as nat,
                (more_fuel - 1) as nat,
            );
        }
    }
}

impl<T> Graph<T> {
    /// Extends the last node of `entry`, which was taken from the agenda:
    /// every hop from it to a node that was not extended adds a longer path.
    fn extend(
        &self,
        agenda: &mut Vec<WeightedPath>,
        extended: &HashSet<usize>,
        entry: &WeightedPath,
        heuristic: &Option<HashMap<usize, usize>>,
    )
        requires
            covers(*heuristic, self@.values.len()),
            entry.path.len() > 0,
            entry@.path.last() < self@.values.len(),
        ensures
            candidates(final(agenda)@) == candidates(old(agenda)@) + added(
                entry@,
                extended@,
                self@.outgoing[entry@.path.last() as int],
                table_of(*heuristic),
                self@.outgoing[entry@.path.last() as int].len() as int,
            ),
    {
        broadcast use group_hash_axioms;

        let ghost table = table_of(*heuristic);
        let ghost start = candidates(agenda@);
        let last = entry.path[entry.path.len() - 1];
        assert(last.0 == entry@.path.last());
        let mut hops = self.successors(last);
        let ghost all = hops.remaining();
        let ghost mut done: int = 0;
        let mut next = hops.next();
        proof {
            if next.is_some() {
                assert(hops.remaining() =~= all.subrange(1, all.len() as int));
            }
            assert(candidates(agenda@) =~= start + added(entry@, extended@, all, table, 0));
        }
        while next.is_some()
            invariant
                covers(*heuristic, self@.values.len()),
                table == table_of(*heuristic),
                hops.graph() == self,
                all == self@.outgoing[last.0 as int],
                last.0 == entry@.path.last(),
                0 <= done <= all.len(),
                match next {
                    Some((node, weight)) => done < all.len() && (node.0, weight) == all[done]
                        && hops.remaining() == all.subrange(done + 1, all.len() as int) && node.0
                        < self@.values.len(),
                    None => done == all.len(),
                },
                candidates(agenda@) == start + added(entry@, extended@, all, table, done),
            decreases all.len() - done,
        {
            let (node, weight) = next.unwrap();
            let ghost earlier = agenda@;
            if !extended.contains(&node.0) {
                let mut path = copy_path(&entry.path);
                path.push(node);
                let cost = entry.current_cost.saturating_add(weight);
                let total = cost.saturating_add(estimate(heuristic, node.0));
                let grown = WeightedPath { current_cost: cost, total_cost: total, path };
                proof {
                    assert(grown@.path =~= entry@.path.push(node.0));
                    assert(grown@ == longer(entry@, all[done], table));
                }
                agenda.push(grown);
                proof {
                    assert(candidates(agenda@) =~= candidates(earlier).push(grown@));
                    assert(candidates(agenda@) =~= start + added(
                        entry@,
                        extended@,
                        all,
                        table,
                        done + 1,
                    ));
                }
            }
            proof {
                done = done + 1;
            }
            let ghost left = hops.remaining();
            next = hops.next();
            proof {
                if next.is_some() {
                    assert(left.drop_first() =~= all.subrange(done + 1, all.len() as int));
                }
            }
        }
    }

    /// Searches for a path from `source` to `target`. The agenda holds the
    /// partial paths; the path that `order` picks is taken from it and, unless
    /// it ends in `target`, its last node is extended: every hop to a node
    /// that was not extended before adds a longer path to the agenda.
    pub fn explore(
        &self,
        source: NodeIndex,
        target: NodeIndex,
        order: Order,
        heuristic: &Option<HashMap<usize, usize>>,
    ) -> (found: Option<Vec<NodeIndex>>)
        requires
            source.0 < self@.values.len(),
            covers(*heuristic, self@.values.len()),
        ensures
            is_result(self@, order, table_of(*heuristic), source.0, target.0, found),
            answers(self@, source.0, target.0, found),
    {
        broadcast use group_hash_axioms;

        let ghost graph = self@;
        let ghost table = table_of(*heuristic);
        let ghost n = graph.values.len();
        let ghost base = (graph.edge_bound() + 1) as nat;
        let ghost goal = search_result(graph, order, table, source.0, target.0);
        let mut extended: HashSet<usize> = HashSet::new();
        let mut agenda: Vec<WeightedPath> = Vec::new();
        let mut start: Vec<NodeIndex> = Vec::new();
        start.push(source);
        let first_estimate = estimate(heuristic, source.0);
        agenda.push(WeightedPath { current_cost: 0, total_cost: first_estimate, path: start });
        self.recall_wf();
        proof {
            self.lemma_edge_bound();
            let first = Candidate {
                current_cost: 0,
                total_cost: estimate_of(table, source.0),
                path: seq![source.0],
            };
            assert(agenda@[0]@.path =~= seq![source.0]);
            assert(candidates(agenda@) =~= seq![first]);
            let only = paths(candidates(agenda@));
            assert(only =~= seq![seq![source.0]]);
            assert(only.drop_last() =~= Seq::<Seq<usize>>::empty());
            assert(work_left(only.drop_last(), n, base) == 0);
            assert(work_left(only, n, base) == worth(1, n, base));
            if graph.reaches(source.0, target.0) {
                let whole = choose|path: Seq<usize>| #[trigger]
                    graph.is_path(path) && path[0] == source.0 && path.last() == target.0;
                assert(continues_to(
                    graph,
                    paths(candidates(agenda@))[0],
                    extended@,
                    target.0,
                    whole,
                ));
            }
        }
        while agenda.len() > 0
            invariant
                graph == self@,
                graph.regular(),
                table == table_of(*heuristic),
                n == graph.values.len(),
                base == (graph.edge_bound() + 1) as nat,
                source.0 < n,
                covers(*heuristic, n),
                all_admissible(graph, source.0, extended@, candidates(agenda@)),
                graph.reaches(source.0, target.0) ==> promising(
                    graph,
                    paths(candidates(agenda@)),
                    extended@,
                    target.0,
                ),
                goal == search_result(graph, order, table, source.0, target.0),
                goal == explored(
                    graph,
                    order,
                    table,
                    target.0,
                    candidates(agenda@),
                    extended@,
                    work_left(paths(candidates(agenda@)), n, base),
                ),
            decreases work_left(paths(candidates(agenda@)), n, base),
        {
            let index = pick(&agenda, order);
            let ghost before = candidates(agenda@);
            let ghost seen = extended@;
            let ghost work = work_left(paths(before), n, base);
            let entry = agenda.remove(index);
            let ghost taken = entry@.path;
            proof {
                assert(candidates(agenda@) =~= before.remove(index as int));
                assert(entry@ == before[index as int]);
                assert(admissible(graph, source.0, seen, taken));
                lemma_step(graph, source.0, table, before, seen, index as int);
                lemma_work_remove(paths(before), index as int, n, base);
                lemma_power_positive(base, (n + 1 - taken.len()) as nat);
                lemma_pigeonhole(taken, n);
            }
            let last = entry.path[entry.path.len() - 1];
            assert(last.0 == taken.last());
            if last.0 == target.0 {
                return Some(entry.path);
            }
            extended.insert(last.0);
            self.extend(&mut agenda, &extended, &entry, heuristic);
            proof {
                let after = candidates(agenda@);
                lemma_fuel(
                    graph,
                    order,
                    source.0,
                    table,
                    target.0,
                    after,
                    extended@,
                    work_left(paths(after), n, base),
                    (work - 1) as nat,
                );
                if graph.reaches(source.0, target.0) {
                    assert forall|k: int| 0 <= k < taken.len() implies extended@.contains(
                        #[trigger] taken[k],
                    ) by {
                        if k < taken.len() - 1 {
                            assert(seen.contains(taken[k]));
                        }
                    }
                    lemma_added(
                        graph,
                        source.0,
                        entry@,
                        extended@,
                        table,
                        graph.outgoing[last.0 as int].len() as int,
                    );
                    lemma_added_joins(
                        before,
                        index as int,
                        added(
                            entry@,
                            extended@,
                            graph.outgoing[last.0 as int],
                            table,
                            graph.outgoing[last.0 as int].len() as int,
                        ),
                        graph.outgoing[last.0 as int],
                        seen.insert(last.0),
                    );
                    lemma_stays_promising(
                        graph,
                        paths(before),
                        index as int,
                        seen,
                        target.0,
                        paths(after),
                    );
                }
            }
        }
        None
    }

    /// Searches depth first for a path from `source` to `target`: the path
    /// added last is extended first.
    pub fn depth_first_search(&self, source: NodeIndex, target: NodeIndex) -> (found: Option<
        Vec<NodeIndex>,
    >)
        requires
            source.0 < self@.values.len(),
        ensures
            is_result(self@, Order::Newest, None, source.0, target.0, found),
            answers(self@, source.0, target.0, found),
    {
        self.explore(source, target, Order::Newest, &None)
    }

    /// Searches breadth first for a path from `source` to `target`: the
    /// path added first is extended first.
    pub fn breadth_first_search(&self, source: NodeIndex, target: NodeIndex) -> (found: Option<
        Vec<NodeIndex>,
    >)
        requires
            source.0 < self@.values.len(),
        ensures
            is_result(self@, Order::Oldest, None, source.0, target.0, found),
            answers(self@, source.0, target.0, found),
    {
        self.explore(source, target, Order::Oldest, &None)
    }

    /// Searches for a path from `source` to `target`, extending first the
    /// path whose cost so far plus the estimate for its last node is least,
    /// the oldest of them if several are. Costs that do not fit the machine
    /// word count as the largest word.
    pub fn a_star_search(
        &self,
        source: NodeIndex,
        target: NodeIndex,
        heuristic: HashMap<usize, usize>,
    ) -> (found: Option<Vec<NodeIndex>>)
        requires
            source.0 < self@.values.len(),
            forall|i: usize| i < self@.values.len() ==> heuristic@.contains_key(i),
        ensures
            is_result(self@, Order::Cheapest, Some(heuristic@), source.0, target.0, found),
            answers(self@, source.0, target.0, found),
    {
        self.explore(source, target, Order::Cheapest, &Some(heuristic))
    }
}

/// Whether `found` is the path that the search finds, or nothing where it
/// finds none.
pub open spec fn is_result<T>(
    graph: GraphView<T>,
    order: Order,
    table: Option<Map<usize, usize>>,
    source: usize,
    target: usize,
    found: Option<Vec<NodeIndex>>,
) -> bool {
    match found {
        Some(path) => search_result(graph, order, table, source, target) == Some(ids(path@)),
        None => search_result(graph, order, table, source, target) is None,
    }
}

/// The paths that were added stand in the agenda after the step.
pub proof fn lemma_added_joins(
    before: Seq<Candidate>,
    index: int,
    more: Seq<Candidate>,
    hops: Seq<(usize, usize)>,
    seen: Set<usize>,
)
    requires
        0 <= index < before.len(),
        forall|j: int|
            0 <= j < hops.len() && !seen.contains((#[trigger] hops[j]).0) ==> exists|c: int|
                0 <= c < more.len() && (#[trigger] more[c]).path == before[index].path.push(
                    hops[j].0,
                ),
    ensures
        paths(before.remove(index) + more).take(before.len() - 1) == paths(before).remove(index),
        forall|j: int|
            0 <= j < hops.len() && !seen.contains((#[trigger] hops[j]).0) ==> exists|c: int|
                0 <= c < paths(before.remove(index) + more).len() && #[trigger] paths(
                    before.remove(index) + more,
                )[c] == paths(before)[index].push(hops[j].0),
{
    let after = before.remove(index) + more;
    assert(paths(after).take(before.len() - 1) =~= paths(before).remove(index));
    assert forall|j: int|
        0 <= j < hops.len() && !seen.contains((#[trigger] hops[j]).0) implies exists|c: int|
        0 <= c < paths(after).len() && #[trigger] paths(after)[c] == paths(before)[index].push(
            hops[j].0,
        ) by {
        let c = choose|c: int|
            0 <= c < more.len() && (#[trigger] more[c]).path == before[index].path.push(hops[j].0);
        assert(paths(after)[before.len() - 1 + c] == more[c].path);
    }
}

} // verus!
