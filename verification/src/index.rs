//! A layered proximity graph over the vectors of one segment.
//!
//! Nodes are storage offsets. Every node is present on layer 0 and on a
//! number of higher layers fixed by its offset; each layer links a node to
//! a bounded number of near neighbours. Searches walk down greedily from
//! the entry node and then explore layer 0 best-first within a budget.

use vstd::prelude::*;
use crate::filter::{filter_holds, Filter};
use crate::metric::Distance;
use crate::metric::lemma_score_wf;
use crate::ranking::{
    all_wf, comes_before, covers, extends, lemma_covers_persists, lemma_outranks_asymmetric,
    lemma_outranks_total, lemma_outranks_transitive, offer, outranks, placed, ranked, ScoredPoint,
};
use crate::storage::PointStore;

verus! {

/// Number of layers a graph can have.
pub const MAX_LAYERS: usize = 8;

/// The proximity graph of a segment, with its tombstones.
pub struct VectorIndex {
    /// `links[node][layer]` lists the neighbours of `node` on `layer`.
    pub links: Vec<Vec<Vec<usize>>>,
    /// `tombstones[node]` tells whether the point was deleted.
    pub tombstones: Vec<bool>,
    /// A node present on the topmost layer, where searches begin.
    pub entry: usize,
    /// Most neighbours a node may have on one layer.
    pub max_degree: usize,
}

/// Every neighbour in `list` is a node of `g` that is present on `layer`.
pub open spec fn list_ok(g: Seq<Vec<Vec<usize>>>, layer: int, list: Seq<usize>) -> bool {
    forall|j: int|
        0 <= j < list.len() ==> (#[trigger] list[j]) < g.len() && layer < g[list[j] as int]@.len()
}

/// One layer of one node respects the degree bound and links to nodes on
/// that layer only.
pub open spec fn layer_ok(g: Seq<Vec<Vec<usize>>>, n: int, l: int, max_degree: usize) -> bool {
    &&& g[n]@[l]@.len() <= max_degree
    &&& list_ok(g, l, g[n]@[l]@)
}

/// Node `n` has between one and `MAX_LAYERS` layers, each of them in order.
pub open spec fn node_ok(g: Seq<Vec<Vec<usize>>>, n: int, max_degree: usize) -> bool {
    &&& 1 <= g[n]@.len() <= MAX_LAYERS
    &&& forall|l: int| 0 <= l < g[n]@.len() ==> #[trigger] layer_ok(g, n, l, max_degree)
}

/// Which offsets a search may report: all of them, or the live ones that
/// satisfy a filter and are not excluded by id.
pub open spec fn eligible(
    store: &PointStore,
    tombstones: Seq<bool>,
    filter: Option<&Filter>,
    excluded: Seq<u64>,
    o: int,
) -> bool {
    match filter {
        None => true,
        Some(f) => {
            &&& o < tombstones.len()
            &&& !tombstones[o]
            &&& filter_holds(*f, store.payloads@[o]@)
            &&& !excluded.contains(store.ids@[o])
        },
    }
}

/// `best[i]` is the point at offset `hits[i]`, scored against `query`.
pub open spec fn paired(
    store: &PointStore,
    metric: Distance,
    query: Seq<i8>,
    hits: Seq<usize>,
    best: Seq<ScoredPoint>,
) -> bool {
    &&& hits.len() == best.len()
    &&& forall|i: int|
        0 <= i < hits.len() ==> (#[trigger] hits[i]) < store.ids@.len() && best[i] == store.scored_at(
            metric,
            query,
            hits[i] as int,
        )
}

/// Links that are in order in `g` stay in order in a graph that has at
/// least the nodes of `g`, each with at least the layers it had.
pub proof fn lemma_list_ok_stable(
    g: Seq<Vec<Vec<usize>>>,
    h: Seq<Vec<Vec<usize>>>,
    layer: int,
    list: Seq<usize>,
)
    requires
        list_ok(g, layer, list),
        g.len() <= h.len(),
        forall|n: int| 0 <= n < g.len() ==> (#[trigger] g[n])@.len() <= h[n]@.len(),
    ensures
        list_ok(h, layer, list),
{
    assert forall|j: int| 0 <= j < list.len() implies (#[trigger] list[j]) < h.len() && layer
        < h[list[j] as int]@.len() by {
        let t = list[j] as int;
        assert(g[t]@.len() <= h[t]@.len());
    }
}

/// Tells whether `ids` holds `id`.
pub fn holds_id(ids: &Vec<u64>, id: u64) -> (r: bool)
    ensures
        r == ids@.contains(id),
{
    let mut i: usize = 0;
    while i < ids.len()
        invariant
            i <= ids.len(),
            forall|j: int| 0 <= j < i ==> ids@[j] != id,
        decreases ids.len() - i,
    {
        if ids[i] == id {
            return true;
        }
        i = i + 1;
    }
    false
}

/// The level reached from `level` by a node whose offset, in base 4, still
/// has the digits of `x` to look at: one level more for each trailing 3.
pub open spec fn level_from(x: nat, level: nat) -> nat
    decreases MAX_LAYERS - level,
{
    if level + 1 < MAX_LAYERS && x % 4 == 3 {
        level_from(x / 4, level + 1)
    } else {
        level
    }
}

/// The number of layers above layer 0 that the node at offset `n` is
/// present on: a quarter of the nodes reach layer 1, a sixteenth layer 2,
/// and so on.
pub open spec fn level_of(n: nat) -> nat {
    level_from(n, 0)
}

/// Computes [`level_of`].
pub fn level_for(n: usize) -> (r: usize)
    ensures
        r == level_of(n as nat),
        r < MAX_LAYERS,
{
    let mut x: usize = n;
    let mut level: usize = 0;
    while level + 1 < MAX_LAYERS && x % 4 == 3
        invariant
            level < MAX_LAYERS,
            level_of(n as nat) == level_from(x as nat, level as nat),
        decreases MAX_LAYERS - level,
    {
        x = x / 4;
        level = level + 1;
    }
    level
}

/// `count` empty neighbour lists.
pub fn empty_lists(count: usize) -> (r: Vec<Vec<usize>>)
    ensures
        r@.len() == count,
        forall|l: int| 0 <= l < count ==> (#[trigger] r@[l])@.len() == 0,
{
    let mut out: Vec<Vec<usize>> = Vec::new();
    let mut i: usize = 0;
    while i < count
        invariant
            i <= count,
            out@.len() == i,
            forall|l: int| 0 <= l < i ==> (#[trigger] out@[l])@.len() == 0,
        decreases count - i,
    {
        out.push(Vec::new());
        i = i + 1;
    }
    out
}

/// `count` unset marks.
pub fn unmarked(count: usize) -> (r: Vec<bool>)
    ensures
        r@.len() == count,
        forall|i: int| 0 <= i < count ==> !r@[i],
{
    let mut out: Vec<bool> = Vec::new();
    let mut i: usize = 0;
    while i < count
        invariant
            i <= count,
            out@.len() == i,
            forall|j: int| 0 <= j < i ==> !out@[j],
        decreases count - i,
    {
        out.push(false);
        i = i + 1;
    }
    out
}

/// Offers the point at offset `o` to a ranking kept together with the
/// offsets of its entries.
pub fn place(
    store: &PointStore,
    metric: Distance,
    query: &Vec<i8>,
    hits: &mut Vec<usize>,
    best: &mut Vec<ScoredPoint>,
    k: usize,
    o: usize,
    point: ScoredPoint,
)
    requires
        store.wf(),
        paired(store, metric, query@, old(hits)@, old(best)@),
        ranked(old(best)@),
        all_wf(old(best)@),
        old(best)@.len() <= k,
        o < store.ids@.len(),
        point == store.scored_at(metric, query@, o as int),
        point.score.wf(),
        forall|i: int| 0 <= i < old(hits)@.len() ==> old(hits)@[i] != o,
    ensures
        paired(store, metric, query@, final(hits)@, final(best)@),
        extends(old(best)@, final(best)@, k as int),
        covers(final(best)@, k as int, point),
        ranked(final(best)@),
        all_wf(final(best)@),
        final(best)@.len() <= k,
        forall|i: int|
            0 <= i < final(hits)@.len() ==> (#[trigger] final(hits)@[i]) == o || old(hits)@.contains(
                final(hits)@[i],
            ),
{
    let ghost hits0 = hits@;
    let ghost best0 = best@;
    assert forall|i: int| 0 <= i < best0.len() implies (#[trigger] best0[i]).id != point.id by {
        assert(hits0[i] != o);
        assert(best0[i] == store.scored_at(metric, query@, hits0[i] as int));
    }
    match offer(best, k, point) {
        None => {
            assert forall|i: int| 0 <= i < hits0.len() implies hits0.contains(#[trigger] hits0[i]) by {}
        },
        Some(p) => {
            hits.insert(p, o);
            if hits.len() > k {
                hits.pop();
            }
            assert(hits@ =~= placed(hits0, k as int, p as int, o));
            assert forall|i: int| 0 <= i < hits@.len() implies (#[trigger] hits@[i]) < store.ids@.len()
                && best@[i] == store.scored_at(metric, query@, hits@[i] as int) && (hits@[i] == o
                || hits0.contains(hits@[i])) by {
                if i < p {
                    assert(hits@[i] == hits0[i] && best@[i] == best0[i]);
                } else if i > p {
                    assert(hits@[i] == hits0[i - 1] && best@[i] == best0[i - 1]);
                }
            }
        },
    }
}

/// What an exploration of the graph gives.
pub struct Exploration {
    /// The offsets of the points found, best first.
    pub offsets: Vec<usize>,
    /// The points found, in the order of `offsets`.
    pub points: Vec<ScoredPoint>,
    /// For each node, whether the exploration has scored it.
    pub visited: Vec<bool>,
}

/// No neighbour of `node` on `layer` is more similar to the query than
/// `node` itself.
pub open spec fn settled(
    g: Seq<Vec<Vec<usize>>>,
    store: &PointStore,
    metric: Distance,
    query: Seq<i8>,
    node: int,
    layer: int,
) -> bool {
    forall|j: int|
        0 <= j < g[node]@[layer]@.len() ==> !outranks(
            store.scored_at(metric, query, (#[trigger] g[node]@[layer]@[j]) as int),
            store.scored_at(metric, query, node),
        )
}

/// The ranking `best` is the top `k` of the eligible nodes among those
/// marked in `visited`.
pub open spec fn tops_visited(
    store: &PointStore,
    tombstones: Seq<bool>,
    metric: Distance,
    query: Seq<i8>,
    filter: Option<&Filter>,
    excluded: Seq<u64>,
    visited: Seq<bool>,
    best: Seq<ScoredPoint>,
    k: int,
) -> bool {
    forall|o: int|
        0 <= o < visited.len() && #[trigger] visited[o] && eligible(
            store,
            tombstones,
            filter,
            excluded,
            o,
        ) ==> covers(best, k, store.scored_at(metric, query, o))
}

/// The best of `node` and the first `j` of its neighbours on `layer`.
pub open spec fn best_upto(
    g: Seq<Vec<Vec<usize>>>,
    store: &PointStore,
    metric: Distance,
    query: Seq<i8>,
    node: int,
    layer: int,
    j: int,
) -> int
    decreases j,
{
    if j <= 0 {
        node
    } else {
        let prev = best_upto(g, store, metric, query, node, layer, j - 1);
        let nb = g[node]@[layer]@[j - 1] as int;
        if outranks(store.scored_at(metric, query, nb), store.scored_at(metric, query, prev)) {
            nb
        } else {
            prev
        }
    }
}

/// The best of `node` and its neighbours on `layer`: where one look from
/// `node` leads.
pub open spec fn best_near(
    g: Seq<Vec<Vec<usize>>>,
    store: &PointStore,
    metric: Distance,
    query: Seq<i8>,
    node: int,
    layer: int,
) -> int {
    best_upto(g, store, metric, query, node, layer, g[node]@[layer]@.len() as int)
}

/// Where the greedy walk from `node` on `layer` down to `target` ends, and
/// what it leaves of `budget`. Each look costs one unit and leads to the
/// best of the node and its neighbours; a look that finds no better
/// neighbour ends the layer. Without budget the walk stays where it is.
pub open spec fn walked(
    g: Seq<Vec<Vec<usize>>>,
    store: &PointStore,
    metric: Distance,
    query: Seq<i8>,
    node: int,
    layer: int,
    target: int,
    budget: nat,
) -> (int, nat)
    decreases budget,
{
    if layer <= target || budget == 0 {
        (node, budget)
    } else {
        let next = best_near(g, store, metric, query, node, layer);
        if next == node {
            walked(g, store, metric, query, node, layer - 1, target, (budget - 1) as nat)
        } else {
            walked(g, store, metric, query, next, layer, target, (budget - 1) as nat)
        }
    }
}

/// The marks of `n` nodes with `start` alone marked.
pub open spec fn only(n: nat, start: int) -> Seq<bool> {
    Seq::new(n, |o: int| o == start)
}

/// The marks of `n` nodes with none marked.
pub open spec fn nothing(n: nat) -> Seq<bool> {
    Seq::new(n, |o: int| false)
}

/// The node `o` is scored but not yet expanded.
pub open spec fn waiting(visited: Seq<bool>, expanded: Seq<bool>, o: int) -> bool {
    0 <= o < visited.len() && visited[o] && !expanded[o]
}

/// The node `c` is the best of the nodes that wait to be expanded.
pub open spec fn is_next(
    store: &PointStore,
    metric: Distance,
    query: Seq<i8>,
    visited: Seq<bool>,
    expanded: Seq<bool>,
    c: int,
) -> bool {
    &&& waiting(visited, expanded, c)
    &&& forall|o: int| #[trigger]
        waiting(visited, expanded, o) && o != c ==> outranks(
            store.scored_at(metric, query, c),
            store.scored_at(metric, query, o),
        )
}

/// The node to expand next: the best of those that wait.
pub open spec fn next_up(
    store: &PointStore,
    metric: Distance,
    query: Seq<i8>,
    visited: Seq<bool>,
    expanded: Seq<bool>,
) -> int {
    choose|c: int| is_next(store, metric, query, visited, expanded, c)
}

/// The marks `visited` with the first `j` nodes of `list` marked as well.
pub open spec fn reached_upto(visited: Seq<bool>, list: Seq<usize>, j: int) -> Seq<bool> {
    Seq::new(
        visited.len(),
        |o: int| visited[o] || exists|i: int| 0 <= i < j && (#[trigger] list[i]) as int == o,
    )
}

/// The marks `visited` with the nodes of `list` marked as well.
pub open spec fn reached(visited: Seq<bool>, list: Seq<usize>) -> Seq<bool> {
    reached_upto(visited, list, list.len() as int)
}

/// The nodes scored once a best-first exploration of `layer` that has
/// scored `visited` and expanded `expanded` has spent `budget`: as long as
/// budget is left and a node waits, the best waiting node is expanded,
/// which scores all its neighbours.
pub open spec fn explored(
    g: Seq<Vec<Vec<usize>>>,
    store: &PointStore,
    metric: Distance,
    query: Seq<i8>,
    layer: int,
    visited: Seq<bool>,
    expanded: Seq<bool>,
    budget: nat,
) -> Seq<bool>
    decreases budget,
{
    if budget == 0 || !(exists|o: int| waiting(visited, expanded, o)) {
        visited
    } else {
        let c = next_up(store, metric, query, visited, expanded);
        explored(
            g,
            store,
            metric,
            query,
            layer,
            reached(visited, g[c]@[layer]@),
            expanded.update(c, true),
            (budget - 1) as nat,
        )
    }
}

/// The nodes that a best-first exploration of `layer` from `start` scores
/// within `budget`.
pub open spec fn scored_from(
    g: Seq<Vec<Vec<usize>>>,
    store: &PointStore,
    metric: Distance,
    query: Seq<i8>,
    start: int,
    layer: int,
    budget: nat,
) -> Seq<bool> {
    explored(g, store, metric, query, layer, only(g.len(), start), nothing(g.len()), budget)
}

/// The points at the offsets of `list`, scored against `query`.
pub open spec fn points_of(
    store: &PointStore,
    metric: Distance,
    query: Seq<i8>,
    list: Seq<usize>,
) -> Seq<ScoredPoint> {
    Seq::new(list.len(), |i: int| store.scored_at(metric, query, list[i] as int))
}

/// No offset occurs twice in `list`.
pub open spec fn no_repeat(list: Seq<usize>) -> bool {
    forall|i: int, j: int| 0 <= i < j < list.len() ==> list[i] != list[j]
}

/// `x` is one of the first `j` offsets of `list`.
pub open spec fn among_first(list: Seq<usize>, j: int, x: int) -> bool {
    exists|i: int| 0 <= i < j && (#[trigger] list[i]) as int == x
}

/// `list` holds, best first, the `k` nodes nearest to `query` among those
/// marked in `visited`.
pub open spec fn links_found(
    store: &PointStore,
    metric: Distance,
    query: Seq<i8>,
    list: Seq<usize>,
    visited: Seq<bool>,
    k: int,
) -> bool {
    &&& list.len() <= k
    &&& forall|i: int|
        0 <= i < list.len() ==> (#[trigger] list[i]) < visited.len() && visited[list[i] as int]
    &&& ranked(points_of(store, metric, query, list))
    &&& forall|o: int|
        0 <= o < visited.len() && #[trigger] visited[o] ==> covers(
            points_of(store, metric, query, list),
            k,
            store.scored_at(metric, query, o),
        )
}

/// The node from which the neighbours of a new node are looked for on
/// layer `l`: on the highest layer the new node shares with the graph,
/// where the walk down from the entry node ends; on each layer below, the
/// nearest node scored on the layer above.
pub open spec fn link_start(
    g: Seq<Vec<Vec<usize>>>,
    store: &PointStore,
    metric: Distance,
    query: Seq<i8>,
    entry: int,
    shared: int,
    budget: nat,
    l: int,
) -> int
    decreases shared - l,
{
    if l >= shared {
        walked(g, store, metric, query, entry, g[entry]@.len() - 1, shared, budget).0
    } else {
        next_up(
            store,
            metric,
            query,
            scored_from(
                g,
                store,
                metric,
                query,
                link_start(g, store, metric, query, entry, shared, budget, l + 1),
                l + 1,
                budget,
            ),
            nothing(g.len()),
        )
    }
}

/// What has become of the neighbours `old` of a node on one layer once a
/// new node `to` is in the graph: where the new node took the node as a
/// neighbour, the list was changed by the rule of
/// [`VectorIndex::add_link`]; otherwise it is as it was.
pub open spec fn back_link(
    store: &PointStore,
    metric: Distance,
    max_degree: usize,
    node: int,
    to: usize,
    old: Seq<usize>,
    fin: Seq<usize>,
    taken: bool,
) -> bool {
    if taken {
        linked(store, metric, max_degree, node, to, old, fin)
    } else {
        fin == old
    }
}

/// How many of the neighbours of a new node on layer `l` have been linked
/// back once the layers below `layer` and the first `j` neighbours on
/// `layer` are done.
pub open spec fn done_upto(own: Seq<Vec<usize>>, layer: int, j: int, l: int) -> int {
    if l < layer {
        own[l]@.len() as int
    } else if l == layer {
        j
    } else {
        0
    }
}

/// The position of an entry of `points` that none of the others comes
/// before.
pub fn pick_best(points: &Vec<ScoredPoint>) -> (b: usize)
    requires
        points@.len() > 0,
        all_wf(points@),
    ensures
        b < points@.len(),
        forall|i: int| 0 <= i < points@.len() ==> !outranks(#[trigger] points@[i], points@[b as int]),
{
    let mut b: usize = 0;
    let mut i: usize = 1;
    proof {
        lemma_outranks_asymmetric(points@[0], points@[0]);
    }
    while i < points.len()
        invariant
            b < i <= points@.len(),
            all_wf(points@),
            forall|a: int| 0 <= a < i ==> !outranks(#[trigger] points@[a], points@[b as int]),
        decreases points@.len() - i,
    {
        if comes_before(&points[i], &points[b]) {
            proof {
                let old_b = b as int;
                assert forall|a: int| 0 <= a < i + 1 implies !outranks(
                    #[trigger] points@[a],
                    points@[i as int],
                ) by {
                    if outranks(points@[a], points@[i as int]) {
                        if a == i {
                            lemma_outranks_asymmetric(points@[a], points@[a]);
                        } else {
                            lemma_outranks_transitive(points@[a], points@[i as int], points@[old_b]);
                        }
                    }
                }
            }
            b = i;
        }
        i = i + 1;
    }
    b
}

/// Every neighbour in `list` is marked in `visited`.
pub open spec fn all_visited(visited: Seq<bool>, list: Seq<usize>) -> bool {
    forall|j: int| 0 <= j < list.len() ==> visited[(#[trigger] list[j]) as int]
}

/// No neighbour in `list` is farther from the vector `base` than the one
/// at position `w`.
pub open spec fn weakest(
    store: &PointStore,
    metric: Distance,
    base: Seq<i8>,
    list: Seq<usize>,
    w: int,
) -> bool {
    &&& 0 <= w < list.len()
    &&& forall|j: int|
        0 <= j < list.len() ==> !outranks(
            store.scored_at(metric, base, list[w] as int),
            store.scored_at(metric, base, (#[trigger] list[j]) as int),
        )
}

/// The list `fin` is what [`VectorIndex::add_link`] makes of the list
/// `old` of `from`'s neighbours when it adds `to`: `to` is appended where
/// there is room, and otherwise takes the place of a neighbour that no
/// other neighbour is farther from `from` than, if `to` is nearer.
pub open spec fn linked(
    store: &PointStore,
    metric: Distance,
    max_degree: usize,
    from: int,
    to: usize,
    old: Seq<usize>,
    fin: Seq<usize>,
) -> bool {
    let base = store.vectors@[from]@;
    if old.len() < max_degree {
        fin == old.push(to)
    } else {
        exists|w: int|
            {
                &&& #[trigger] weakest(store, metric, base, old, w)
                &&& fin == if outranks(
                    store.scored_at(metric, base, to as int),
                    store.scored_at(metric, base, old[w] as int),
                ) {
                    old.update(w, to)
                } else {
                    old
                }
            }
    }
}

impl VectorIndex {
    /// The tombstones match the nodes, every node is in order, and no node
    /// has more layers than the entry node.
    pub open spec fn wf(&self) -> bool {
        &&& self.max_degree >= 1
        &&& self.tombstones@.len() == self.links@.len()
        &&& self.links@.len() > 0 ==> self.entry < self.links@.len()
        &&& forall|n: int|
            0 <= n < self.links@.len() ==> #[trigger] node_ok(self.links@, n, self.max_degree)
        &&& forall|n: int|
            0 <= n < self.links@.len() ==> (#[trigger] self.links@[n])@.len()
                <= self.links@[self.entry as int]@.len()
    }

    /// An empty graph whose nodes will have at most `max_degree` neighbours
    /// on a layer (at least one).
    pub fn new(max_degree: usize) -> (r: VectorIndex)
        ensures
            r.wf(),
            r.links@.len() == 0,
            r.max_degree == if max_degree == 0 { 1 } else { max_degree },
    {
        VectorIndex {
            links: Vec::new(),
            tombstones: Vec::new(),
            entry: 0,
            max_degree: if max_degree == 0 { 1 } else { max_degree },
        }
    }

    /// Number of nodes.
    pub fn size(&self) -> (r: usize)
        ensures
            r == self.links@.len(),
    {
        self.links.len()
    }

    /// Tells whether the node at offset `o` carries a tombstone.
    pub fn is_deleted(&self, o: usize) -> (r: bool)
        requires
            o < self.tombstones@.len(),
        ensures
            r == self.tombstones@[o as int],
    {
        self.tombstones[o]
    }

    /// Marks the node at offset `o` as deleted. Its links stay, so that
    /// searches can still pass through it.
    pub fn delete(&mut self, o: usize)
        requires
            old(self).wf(),
            o < old(self).links@.len(),
        ensures
            final(self).wf(),
            final(self).links@ == old(self).links@,
            final(self).entry == old(self).entry,
            final(self).max_degree == old(self).max_degree,
            final(self).tombstones@ == old(self).tombstones@.update(o as int, true),
    {
        self.tombstones[o] = true;
    }

    /// Takes the tombstone off the node at offset `o`.
    pub fn restore(&mut self, o: usize)
        requires
            old(self).wf(),
            o < old(self).links@.len(),
        ensures
            final(self).wf(),
            final(self).links@ == old(self).links@,
            final(self).entry == old(self).entry,
            final(self).max_degree == old(self).max_degree,
            final(self).tombstones@ == old(self).tombstones@.update(o as int, false),
    {
        self.tombstones[o] = false;
    }

    /// Decides [`eligible`].
    pub fn is_eligible(
        &self,
        store: &PointStore,
        filter: Option<&Filter>,
        excluded: &Vec<u64>,
        o: usize,
    ) -> (r: bool)
        requires
            store.wf(),
            o < store.ids@.len(),
        ensures
            r == eligible(store, self.tombstones@, filter, excluded@, o as int),
    {
        match filter {
            None => true,
            Some(f) => {
                o < self.tombstones.len() && !self.tombstones[o] && f.matches(&store.payloads[o])
                    && !holds_id(excluded, store.ids[o])
            },
        }
    }

    /// Walks from the entry node down to layer `target`, moving on each
    /// layer above it to a better neighbour for as long as there is one and
    /// the budget lasts; each look at a node's neighbours costs one unit.
    ///
    /// The result is where the greedy walk ends and what it leaves of the
    /// budget: a node present on layer `target`, never farther from the
    /// query than the entry node. Where budget is left, the walk was not cut
    /// short: the node has no better neighbour on the layer above `target`.
    pub fn descend(
        &self,
        store: &PointStore,
        metric: Distance,
        query: &Vec<i8>,
        target: usize,
        budget: usize,
    ) -> (r: (usize, usize))
        requires
            self.wf(),
            store.wf(),
            self.links@.len() <= store.ids@.len(),
            query@.len() == store.dim,
            self.links@.len() > 0,
            target < self.links@[self.entry as int]@.len(),
        ensures
            (r.0 as int, r.1 as nat) == walked(
                self.links@,
                store,
                metric,
                query@,
                self.entry as int,
                self.links@[self.entry as int]@.len() - 1,
                target as int,
                budget as nat,
            ),
            r.0 < self.links@.len(),
            target < self.links@[r.0 as int]@.len(),
            r.1 <= budget,
            r.0 == self.entry || outranks(
                store.scored_at(metric, query@, r.0 as int),
                store.scored_at(metric, query@, self.entry as int),
            ),
            r.1 > 0 && target + 1 < self.links@[self.entry as int]@.len() ==> target + 1
                < self.links@[r.0 as int]@.len() && settled(
                self.links@,
                store,
                metric,
                query@,
                r.0 as int,
                target + 1,
            ),
    {
        let mut cur: usize = self.entry;
        let first = store.score_at(metric, query, cur);
        let mut cur_point = first;
        let top: usize = self.links[self.entry].len() - 1;
        let mut layer: usize = top;
        let mut remaining: usize = budget;
        let ghost total = walked(
            self.links@,
            store,
            metric,
            query@,
            self.entry as int,
            top as int,
            target as int,
            budget as nat,
        );
        while layer > target
            invariant
                total == walked(
                    self.links@,
                    store,
                    metric,
                    query@,
                    cur as int,
                    layer as int,
                    target as int,
                    remaining as nat,
                ),
                self.wf(),
                store.wf(),
                self.links@.len() <= store.ids@.len(),
                query@.len() == store.dim,
                cur < self.links@.len(),
                layer < self.links@[cur as int]@.len(),
                target <= layer <= top,
                top + 1 == self.links@[self.entry as int]@.len(),
                remaining <= budget,
                cur_point == store.scored_at(metric, query@, cur as int),
                cur_point.score.wf(),
                first == store.scored_at(metric, query@, self.entry as int),
                first.score.wf(),
                cur == self.entry || outranks(cur_point, first),
                remaining > 0 && layer < top ==> layer + 1 < self.links@[cur as int]@.len()
                    && settled(self.links@, store, metric, query@, cur as int, layer + 1),
            decreases layer,
        {
            let mut moved = true;
            while moved && remaining > 0
                invariant
                    layer > target,
                    total == if moved {
                        walked(
                            self.links@,
                            store,
                            metric,
                            query@,
                            cur as int,
                            layer as int,
                            target as int,
                            remaining as nat,
                        )
                    } else {
                        walked(
                            self.links@,
                            store,
                            metric,
                            query@,
                            cur as int,
                            layer - 1,
                            target as int,
                            remaining as nat,
                        )
                    },
                    self.wf(),
                    store.wf(),
                    self.links@.len() <= store.ids@.len(),
                    query@.len() == store.dim,
                    cur < self.links@.len(),
                    layer < self.links@[cur as int]@.len(),
                    remaining <= budget,
                    cur_point == store.scored_at(metric, query@, cur as int),
                    cur_point.score.wf(),
                    first == store.scored_at(metric, query@, self.entry as int),
                    first.score.wf(),
                    cur == self.entry || outranks(cur_point, first),
                    !moved ==> settled(self.links@, store, metric, query@, cur as int, layer as int),
                decreases remaining,
            {
                remaining = remaining - 1;
                moved = false;
                let here: usize = cur;
                let here_point = cur_point;
                let mut j: usize = 0;
                assert(node_ok(self.links@, here as int, self.max_degree));
                assert(layer_ok(self.links@, here as int, layer as int, self.max_degree));
                while j < self.links[here][layer].len()
                    invariant
                        cur as int == best_upto(
                            self.links@,
                            store,
                            metric,
                            query@,
                            here as int,
                            layer as int,
                            j as int,
                        ),
                        moved == (cur != here),
                        here_point == store.scored_at(metric, query@, here as int),
                        here_point.score.wf(),
                        cur == here || outranks(cur_point, here_point),
                        self.wf(),
                        store.wf(),
                        self.links@.len() <= store.ids@.len(),
                        query@.len() == store.dim,
                        here < self.links@.len(),
                        layer < self.links@[here as int]@.len(),
                        list_ok(self.links@, layer as int, self.links@[here as int]@[layer as int]@),
                        j <= self.links@[here as int]@[layer as int]@.len(),
                        cur < self.links@.len(),
                        layer < self.links@[cur as int]@.len(),
                        cur_point == store.scored_at(metric, query@, cur as int),
                        cur_point.score.wf(),
                        first == store.scored_at(metric, query@, self.entry as int),
                        first.score.wf(),
                        cur == self.entry || outranks(cur_point, first),
                        !moved ==> cur == here && forall|i: int|
                            0 <= i < j ==> !outranks(
                                store.scored_at(
                                    metric,
                                    query@,
                                    (#[trigger] self.links@[here as int]@[layer as int]@[i]) as int,
                                ),
                                cur_point,
                            ),
                    decreases self.links@[here as int]@[layer as int]@.len() - j,
                {
                    let nb: usize = self.links[here][layer][j];
                    assert(nb == self.links@[here as int]@[layer as int]@[j as int]);
                    let point = store.score_at(metric, query, nb);
                    if comes_before(&point, &cur_point) {
                        proof {
                            if cur != self.entry {
                                lemma_outranks_transitive(point, cur_point, first);
                            }
                            if cur != here {
                                lemma_outranks_transitive(point, cur_point, here_point);
                            }
                            lemma_outranks_asymmetric(point, cur_point);
                        }
                        cur = nb;
                        cur_point = point;
                        moved = true;
                    }
                    j = j + 1;
                }
            }
            layer = layer - 1;
        }
        (cur, remaining)
    }

    /// Explores `layer` best-first from `start`: as long as the budget
    /// lasts and a node waits, the best node scored but not yet expanded is
    /// expanded, that is, all its neighbours not yet scored are scored.
    /// Nodes that are not eligible are passed through and cost budget like
    /// any other.
    ///
    /// The nodes scored are those that such an exploration scores, and the
    /// result is the top `k` of the eligible nodes among them.
    pub fn explore(
        &self,
        store: &PointStore,
        metric: Distance,
        query: &Vec<i8>,
        start: usize,
        layer: usize,
        budget: usize,
        k: usize,
        filter: Option<&Filter>,
        excluded: &Vec<u64>,
    ) -> (r: Exploration)
        requires
            self.wf(),
            store.wf(),
            self.links@.len() <= store.ids@.len(),
            query@.len() == store.dim,
            start < self.links@.len(),
            layer < self.links@[start as int]@.len(),
        ensures
            r.visited@ == scored_from(
                self.links@,
                store,
                metric,
                query@,
                start as int,
                layer as int,
                budget as nat,
            ),
            paired(store, metric, query@, r.offsets@, r.points@),
            ranked(r.points@),
            all_wf(r.points@),
            r.points@.len() <= k,
            r.visited@.len() == self.links@.len(),
            forall|i: int|
                0 <= i < r.offsets@.len() ==> {
                    &&& (#[trigger] r.offsets@[i]) < self.links@.len()
                    &&& layer < self.links@[r.offsets@[i] as int]@.len()
                    &&& eligible(store, self.tombstones@, filter, excluded@, r.offsets@[i] as int)
                    &&& r.visited@[r.offsets@[i] as int]
                },
            tops_visited(
                store,
                self.tombstones@,
                metric,
                query@,
                filter,
                excluded@,
                r.visited@,
                r.points@,
                k as int,
            ),
            r.visited@[start as int],
            budget > 0 ==> all_visited(r.visited@, self.links@[start as int]@[layer as int]@),
    {
        let n: usize = self.links.len();
        let ghost g = self.links@;
        let mut visited: Vec<bool> = unmarked(n);
        let mut frontier: Vec<usize> = Vec::new();
        let mut frontier_points: Vec<ScoredPoint> = Vec::new();
        let mut hits: Vec<usize> = Vec::new();
        let mut best: Vec<ScoredPoint> = Vec::new();
        let first = store.score_at(metric, query, start);
        frontier.push(start);
        frontier_points.push(first);
        if self.is_eligible(store, filter, excluded, start) {
            place(store, metric, query, &mut hits, &mut best, k, start, first);
        }
        visited[start] = true;
        let ghost mut expanded: Seq<bool> = nothing(n as nat);
        let ghost goal = scored_from(g, store, metric, query@, start as int, layer as int, budget as nat);
        assert(visited@ =~= only(n as nat, start as int));
        let mut remaining: usize = budget;
        proof {
            assert forall|o: int| #[trigger] waiting(visited@, expanded, o) implies frontier@.contains(
                o as usize,
            ) by {
                assert(frontier@[0] == start);
            }
        }
        while frontier.len() > 0 && remaining > 0
            invariant
                self.wf(),
                store.wf(),
                g == self.links@,
                n == self.links@.len(),
                n <= store.ids@.len(),
                query@.len() == store.dim,
                start < n,
                layer < self.links@[start as int]@.len(),
                visited@.len() == n,
                visited@[start as int],
                remaining <= budget,
                remaining == budget ==> frontier@ == seq![start],
                remaining < budget ==> all_visited(
                    visited@,
                    self.links@[start as int]@[layer as int]@,
                ),
                expanded.len() == n,
                goal == explored(
                    g,
                    store,
                    metric,
                    query@,
                    layer as int,
                    visited@,
                    expanded,
                    remaining as nat,
                ),
                forall|o: int| 0 <= o < n && expanded[o] ==> visited@[o],
                forall|o: int| #[trigger]
                    waiting(visited@, expanded, o) ==> frontier@.contains(o as usize),
                forall|i: int, j: int|
                    0 <= i < j < frontier@.len() ==> frontier@[i] != frontier@[j],
                frontier@.len() == frontier_points@.len(),
                all_wf(frontier_points@),
                forall|i: int|
                    0 <= i < frontier@.len() ==> {
                        &&& (#[trigger] frontier@[i]) < n
                        &&& layer < self.links@[frontier@[i] as int]@.len()
                        &&& waiting(visited@, expanded, frontier@[i] as int)
                        &&& frontier_points@[i] == store.scored_at(metric, query@, frontier@[i] as int)
                    },
                paired(store, metric, query@, hits@, best@),
                ranked(best@),
                all_wf(best@),
                best@.len() <= k,
                forall|i: int|
                    0 <= i < hits@.len() ==> {
                        &&& (#[trigger] hits@[i]) < n
                        &&& visited@[hits@[i] as int]
                        &&& layer < self.links@[hits@[i] as int]@.len()
                        &&& eligible(store, self.tombstones@, filter, excluded@, hits@[i] as int)
                    },
                tops_visited(
                    store,
                    self.tombstones@,
                    metric,
                    query@,
                    filter,
                    excluded@,
                    visited@,
                    best@,
                    k as int,
                ),
            decreases remaining,
        {
            let ghost first_round = remaining == budget;
            let ghost seen = visited@;
            let ghost done = expanded;
            let ghost front = frontier@;
            let ghost front_points = frontier_points@;
            let b: usize = pick_best(&frontier_points);
            let c: usize = frontier[b];
            proof {
                assert forall|o: int| #[trigger] waiting(seen, done, o) && o != c implies outranks(
                    store.scored_at(metric, query@, c as int),
                    store.scored_at(metric, query@, o),
                ) by {
                    let i = choose|i: int| 0 <= i < front.len() && front[i] == o as usize;
                    assert(front[i] == o);
                    assert(!outranks(front_points[i], front_points[b as int]));
                    assert(store.ids@[o] != store.ids@[c as int]);
                    lemma_outranks_total(front_points[b as int], front_points[i]);
                }
                assert(waiting(seen, done, front[b as int] as int));
                assert(is_next(store, metric, query@, seen, done, c as int));
                let c2 = next_up(store, metric, query@, seen, done);
                assert(is_next(store, metric, query@, seen, done, c2));
                if c2 != c {
                    assert(waiting(seen, done, c2));
                    assert(waiting(seen, done, c as int));
                    lemma_outranks_asymmetric(
                        store.scored_at(metric, query@, c as int),
                        store.scored_at(metric, query@, c2),
                    );
                }
                assert(c2 == c);
                assert(exists|o: int| waiting(seen, done, o));
                assert(goal == explored(
                    g,
                    store,
                    metric,
                    query@,
                    layer as int,
                    reached(seen, g[c as int]@[layer as int]@),
                    done.update(c as int, true),
                    (remaining - 1) as nat,
                ));
            }
            remaining = remaining - 1;
            frontier.swap_remove(b);
            frontier_points.swap_remove(b);
            proof {
                expanded = done.update(c as int, true);
                let last = front.len() - 1;
                assert forall|i: int| 0 <= i < frontier@.len() implies (#[trigger] frontier@[i])
                    == front[if i == b { last } else { i }] && frontier_points@[i]
                    == front_points[if i == b { last } else { i }] by {}
                assert forall|o: int| #[trigger] waiting(seen, expanded, o) implies frontier@.contains(
                    o as usize,
                ) by {
                    assert(waiting(seen, done, o));
                    let i = choose|i: int| 0 <= i < front.len() && front[i] == o as usize;
                    assert(i != b);
                    if i == last {
                        assert(frontier@[b as int] == o as usize);
                    } else {
                        assert(frontier@[i] == o as usize);
                    }
                }
            }
            assert(first_round ==> c == start);
            assert(node_ok(self.links@, c as int, self.max_degree));
            assert(layer_ok(self.links@, c as int, layer as int, self.max_degree));
            let ghost list = g[c as int]@[layer as int]@;
            assert(visited@ =~= reached_upto(seen, list, 0));
            let mut j: usize = 0;
            while j < self.links[c][layer].len()
                invariant
                    self.wf(),
                    store.wf(),
                    g == self.links@,
                    n == self.links@.len(),
                    n <= store.ids@.len(),
                    query@.len() == store.dim,
                    start < n,
                    layer < self.links@[start as int]@.len(),
                    visited@.len() == n,
                    visited@[start as int],
                    c < n,
                    layer < self.links@[c as int]@.len(),
                    list == g[c as int]@[layer as int]@,
                    list_ok(self.links@, layer as int, list),
                    j <= list.len(),
                    seen.len() == n,
                    visited@ == reached_upto(seen, list, j as int),
                    expanded.len() == n,
                    forall|o: int| 0 <= o < n && expanded[o] ==> visited@[o],
                    forall|o: int| #[trigger]
                        waiting(visited@, expanded, o) ==> frontier@.contains(o as usize),
                    forall|i: int, j: int|
                        0 <= i < j < frontier@.len() ==> frontier@[i] != frontier@[j],
                    forall|i: int| 0 <= i < j ==> visited@[(#[trigger] list[i]) as int],
                    !first_round ==> all_visited(
                        visited@,
                        self.links@[start as int]@[layer as int]@,
                    ),
                    frontier@.len() == frontier_points@.len(),
                    all_wf(frontier_points@),
                    forall|i: int|
                        0 <= i < frontier@.len() ==> {
                            &&& (#[trigger] frontier@[i]) < n
                            &&& layer < self.links@[frontier@[i] as int]@.len()
                            &&& waiting(visited@, expanded, frontier@[i] as int)
                            &&& frontier_points@[i] == store.scored_at(
                                metric,
                                query@,
                                frontier@[i] as int,
                            )
                        },
                    paired(store, metric, query@, hits@, best@),
                    ranked(best@),
                    all_wf(best@),
                    best@.len() <= k,
                    forall|i: int|
                        0 <= i < hits@.len() ==> {
                            &&& (#[trigger] hits@[i]) < n
                            &&& visited@[hits@[i] as int]
                            &&& layer < self.links@[hits@[i] as int]@.len()
                            &&& eligible(store, self.tombstones@, filter, excluded@, hits@[i] as int)
                        },
                    tops_visited(
                        store,
                        self.tombstones@,
                        metric,
                        query@,
                        filter,
                        excluded@,
                        visited@,
                        best@,
                        k as int,
                    ),
                decreases list.len() - j,
            {
                let nb: usize = self.links[c][layer][j];
                assert(nb == list[j as int]);
                let ghost seen0 = visited@;
                if !visited[nb] {
                    let point = store.score_at(metric, query, nb);
                    let ghost front0 = frontier@;
                    proof {
                        assert forall|i: int| 0 <= i < front0.len() implies front0[i] != nb by {
                            assert(waiting(seen0, expanded, front0[i] as int));
                        }
                    }
                    frontier.push(nb);
                    frontier_points.push(point);
                    let ghost hits0 = hits@;
                    let ghost best0 = best@;
                    if self.is_eligible(store, filter, excluded, nb) {
                        place(store, metric, query, &mut hits, &mut best, k, nb, point);
                        proof {
                            assert forall|i: int| 0 <= i < hits@.len() implies {
                                &&& (#[trigger] hits@[i]) < n
                                &&& (hits@[i] == nb || seen0[hits@[i] as int])
                                &&& layer < self.links@[hits@[i] as int]@.len()
                                &&& eligible(
                                    store,
                                    self.tombstones@,
                                    filter,
                                    excluded@,
                                    hits@[i] as int,
                                )
                            } by {
                                if hits@[i] != nb {
                                    let w = choose|w: int| 0 <= w < hits0.len() && hits0[w] == hits@[i];
                                    assert(hits0[w] < n);
                                }
                            }
                            assert forall|o: int|
                                0 <= o < n && #[trigger] seen0[o] && eligible(
                                    store,
                                    self.tombstones@,
                                    filter,
                                    excluded@,
                                    o,
                                ) implies covers(
                                best@,
                                k as int,
                                store.scored_at(metric, query@, o),
                            ) by {
                                assert(store.vectors@[o]@.len() == store.dim);
                                lemma_score_wf(metric, store.vectors@[o]@, query@);
                                lemma_covers_persists(
                                    best0,
                                    best@,
                                    k as int,
                                    store.scored_at(metric, query@, o),
                                );
                            }
                        }
                    }
                    visited[nb] = true;
                    proof {
                        if !first_round {
                            let around = self.links@[start as int]@[layer as int]@;
                            assert(node_ok(self.links@, start as int, self.max_degree));
                            assert(layer_ok(self.links@, start as int, layer as int, self.max_degree));
                            assert forall|i: int| 0 <= i < around.len() implies visited@[(
                            #[trigger] around[i]) as int] by {
                                assert(seen0[around[i] as int]);
                            }
                        }
                        assert forall|o: int|
                            0 <= o < n && #[trigger] visited@[o] && eligible(
                                store,
                                self.tombstones@,
                                filter,
                                excluded@,
                                o,
                            ) implies covers(best@, k as int, store.scored_at(metric, query@, o)) by {
                            if o != nb {
                                assert(seen0[o]);
                            }
                        }
                        assert forall|o: int| #[trigger]
                            waiting(visited@, expanded, o) implies frontier@.contains(o as usize) by {
                            if o == nb {
                                assert(frontier@[front0.len() as int] == nb);
                            } else {
                                assert(waiting(seen0, expanded, o));
                                let i = choose|i: int| 0 <= i < front0.len() && front0[i] == o as usize;
                                assert(frontier@[i] == o as usize);
                            }
                        }
                        assert forall|i: int| 0 <= i < frontier@.len() implies waiting(
                            visited@,
                            expanded,
                            (#[trigger] frontier@[i]) as int,
                        ) by {
                            if i < front0.len() {
                                assert(waiting(seen0, expanded, front0[i] as int));
                            }
                        }
                    }
                }
                proof {
                    assert(visited@ =~= reached_upto(seen, list, j + 1)) by {
                        assert forall|o: int| 0 <= o < n implies visited@[o] == reached_upto(
                            seen,
                            list,
                            j + 1,
                        )[o] by {
                            if reached_upto(seen, list, j + 1)[o] && !seen[o] {
                                let i = choose|i: int| 0 <= i < j + 1 && (#[trigger] list[i]) as int == o;
                                if i < j {
                                    assert(reached_upto(seen, list, j as int)[o]);
                                }
                            }
                            if visited@[o] && !seen[o] {
                                if o == nb {
                                    assert(list[j as int] as int == o);
                                } else {
                                    assert(reached_upto(seen, list, j as int)[o]);
                                    let i = choose|i: int| 0 <= i < j && (#[trigger] list[i]) as int == o;
                                    assert(0 <= i < j + 1 && list[i] as int == o);
                                }
                            }
                        }
                    }
                }
                j = j + 1;
            }
        }
        Exploration { offsets: hits, points: best, visited }
    }

    /// The nodes that a search for `query` scores within `budget`: those
    /// that an exploration of layer 0 scores, from where the walk down from
    /// the entry node ends, with what the walk leaves of the budget. They do
    /// not depend on the filter or on how many points are asked for.
    pub open spec fn scored_by(
        &self,
        store: &PointStore,
        metric: Distance,
        query: Seq<i8>,
        budget: usize,
    ) -> Seq<bool> {
        if self.links@.len() == 0 {
            Seq::empty()
        } else {
            let walk = walked(
                self.links@,
                store,
                metric,
                query,
                self.entry as int,
                self.links@[self.entry as int]@.len() - 1,
                0,
                budget as nat,
            );
            scored_from(self.links@, store, metric, query, walk.0, 0, walk.1)
        }
    }

    /// The highest layer that a new node at offset `n` shares with the
    /// graph.
    pub open spec fn shared_layer(&self, n: nat) -> int {
        let top = self.links@[self.entry as int]@.len() - 1;
        if level_of(n) < top {
            level_of(n) as int
        } else {
            top
        }
    }

    /// The new node of `fin`, the last one, has on each layer it shares
    /// with the graph `old` the neighbours that an exploration for its own
    /// vector finds, and none on the layers above.
    pub open spec fn linked_in(
        old: VectorIndex,
        fin: VectorIndex,
        store: &PointStore,
        metric: Distance,
        budget: usize,
    ) -> bool {
        let n = old.links@.len() as int;
        let query = store.vectors@[n]@;
        let own = fin.links@[n]@;
        if n == 0 {
            forall|l: int| 0 <= l < own.len() ==> (#[trigger] own[l])@.len() == 0
        } else {
            let shared = old.shared_layer(n as nat);
            &&& forall|l: int|
                0 <= l <= shared ==> links_found(
                    store,
                    metric,
                    query,
                    (#[trigger] own[l])@,
                    scored_from(
                        old.links@,
                        store,
                        metric,
                        query,
                        link_start(
                            old.links@,
                            store,
                            metric,
                            query,
                            old.entry as int,
                            shared,
                            budget as nat,
                            l,
                        ),
                        l,
                        budget as nat,
                    ),
                    old.max_degree as int,
                )
            &&& forall|l: int| shared < l < own.len() ==> (#[trigger] own[l])@.len() == 0
        }
    }

    /// Every node that the new node of `fin` took as a neighbour on a layer
    /// was linked back to it on that layer, and no other link of the graph
    /// `old` has changed.
    pub open spec fn linked_back(
        old: VectorIndex,
        fin: VectorIndex,
        store: &PointStore,
        metric: Distance,
    ) -> bool {
        let n = old.links@.len() as int;
        let own = fin.links@[n]@;
        forall|x: int, l: int|
            0 <= x < n && 0 <= l < old.links@[x]@.len() ==> back_link(
                store,
                metric,
                old.max_degree,
                x,
                n as usize,
                (#[trigger] old.links@[x]@[l])@,
                fin.links@[x]@[l]@,
                l < own.len() && among_first(own[l]@, own[l]@.len() as int, x),
            )
    }

    /// Searches the graph for the points most similar to `query` among the
    /// live points that satisfy `filter` and whose id is not in `excluded`:
    /// a walk down from the entry node, then an exploration of layer 0 with
    /// what the walk left of `budget`.
    ///
    /// The result is in ranking order, has at most `k` entries, and each
    /// entry is a point of the store that the search may report, with its
    /// exact score. It is the top `k` of such points among the nodes that
    /// were scored, of which there is at least one in a graph with nodes.
    pub fn search(
        &self,
        store: &PointStore,
        metric: Distance,
        query: &Vec<i8>,
        budget: usize,
        k: usize,
        filter: &Filter,
        excluded: &Vec<u64>,
    ) -> (r: Exploration)
        requires
            self.wf(),
            store.wf(),
            self.links@.len() == store.ids@.len(),
            query@.len() == store.dim,
        ensures
            r.visited@ == self.scored_by(store, metric, query@, budget),
            paired(store, metric, query@, r.offsets@, r.points@),
            ranked(r.points@),
            all_wf(r.points@),
            r.points@.len() <= k,
            r.visited@.len() == self.links@.len(),
            forall|i: int|
                0 <= i < r.offsets@.len() ==> (#[trigger] r.offsets@[i]) < self.links@.len()
                    && r.visited@[r.offsets@[i] as int],
            forall|i: int|
                0 <= i < r.offsets@.len() ==> eligible(
                    store,
                    self.tombstones@,
                    Some(filter),
                    excluded@,
                    (#[trigger] r.offsets@[i]) as int,
                ),
            tops_visited(
                store,
                self.tombstones@,
                metric,
                query@,
                Some(filter),
                excluded@,
                r.visited@,
                r.points@,
                k as int,
            ),
            self.links@.len() > 0 ==> r.visited@.contains(true),
    {
        if self.links.len() == 0 {
            let none: Vec<bool> = Vec::new();
            assert(none@ =~= Seq::<bool>::empty());
            return Exploration { offsets: Vec::new(), points: Vec::new(), visited: none };
        }
        assert(node_ok(self.links@, self.entry as int, self.max_degree));
        let walk = self.descend(store, metric, query, 0, budget);
        let r = self.explore(store, metric, query, walk.0, 0, walk.1, k, Some(filter), excluded);
        assert(r.visited@[walk.0 as int]);
        r
    }

    /// Adds `to` to the neighbours of `from` on `layer`. Where the list is
    /// full, `to` takes the place of the neighbour farthest from `from`, if
    /// `to` is nearer than that one.
    pub fn add_link(
        &mut self,
        store: &PointStore,
        metric: Distance,
        from: usize,
        layer: usize,
        to: usize,
    )
        requires
            old(self).wf(),
            store.wf(),
            old(self).links@.len() <= store.ids@.len(),
            from < old(self).links@.len(),
            to < old(self).links@.len(),
            layer < old(self).links@[from as int]@.len(),
            layer < old(self).links@[to as int]@.len(),
        ensures
            final(self).wf(),
            final(self).links@.len() == old(self).links@.len(),
            final(self).tombstones@ == old(self).tombstones@,
            final(self).entry == old(self).entry,
            final(self).max_degree == old(self).max_degree,
            forall|x: int|
                0 <= x < old(self).links@.len() ==> (#[trigger] final(self).links@[x])@.len() == old(
                    self,
                ).links@[x]@.len(),
            forall|x: int|
                0 <= x < old(self).links@.len() && x != from ==> (#[trigger] final(self).links@[x])
                    == old(self).links@[x],
            forall|l: int|
                0 <= l < old(self).links@[from as int]@.len() && l != layer ==> (
                #[trigger] final(self).links@[from as int]@[l]) == old(self).links@[from as int]@[l],
            linked(
                store,
                metric,
                old(self).max_degree,
                from as int,
                to,
                old(self).links@[from as int]@[layer as int]@,
                final(self).links@[from as int]@[layer as int]@,
            ),
    {
        let ghost g = self.links@;
        let ghost old_list = g[from as int]@[layer as int]@;
        let ghost base = store.vectors@[from as int]@;
        assert(node_ok(g, from as int, self.max_degree));
        assert(layer_ok(g, from as int, layer as int, self.max_degree));
        let degree: usize = self.links[from][layer].len();
        if degree < self.max_degree {
            self.links[from][layer].push(to);
            assert(self.links@[from as int]@[layer as int]@ == old_list.push(to));
        } else {
            assert(store.vectors@[from as int]@.len() == store.dim);
            let mut worst: usize = 0;
            let mut worst_point = store.score_at(
                metric,
                &store.vectors[from],
                self.links[from][layer][0],
            );
            let mut j: usize = 1;
            while j < degree
                invariant
                    self.links@ == g,
                    store.wf(),
                    g.len() <= store.ids@.len(),
                    from < g.len(),
                    layer < g[from as int]@.len(),
                    old_list == g[from as int]@[layer as int]@,
                    degree == old_list.len(),
                    base == store.vectors@[from as int]@,
                    list_ok(g, layer as int, old_list),
                    1 <= j <= degree,
                    worst < j,
                    worst_point == store.scored_at(metric, base, old_list[worst as int] as int),
                    worst_point.score.wf(),
                    forall|i: int|
                        0 <= i < j ==> !outranks(
                            worst_point,
                            store.scored_at(metric, base, (#[trigger] old_list[i]) as int),
                        ),
                decreases degree - j,
            {
                assert(store.vectors@[from as int]@.len() == store.dim);
                let nb: usize = self.links[from][layer][j];
                assert(nb == old_list[j as int]);
                let point = store.score_at(metric, &store.vectors[from], nb);
                if comes_before(&worst_point, &point) {
                    proof {
                        assert forall|i: int| 0 <= i < j + 1 implies !outranks(
                            point,
                            store.scored_at(metric, base, (#[trigger] old_list[i]) as int),
                        ) by {
                            let other = store.scored_at(metric, base, old_list[i] as int);
                            if outranks(point, other) {
                                assert(old_list[i] < store.ids@.len());
                                assert(store.vectors@[old_list[i] as int]@.len() == store.dim);
                                lemma_score_wf(metric, store.vectors@[old_list[i] as int]@, base);
                                lemma_outranks_transitive(worst_point, point, other);
                            }
                        }
                    }
                    worst = j;
                    worst_point = point;
                }
                j = j + 1;
            }
            let candidate = store.score_at(metric, &store.vectors[from], to);
            assert(weakest(store, metric, base, old_list, worst as int));
            if comes_before(&candidate, &worst_point) {
                self.links[from][layer][worst] = to;
                assert(self.links@[from as int]@[layer as int]@ == old_list.update(worst as int, to));
            }
        }
        proof {
            let h = self.links@;
            assert(h.len() == g.len());
            assert forall|x: int| 0 <= x < g.len() implies (#[trigger] h[x])@.len() == g[x]@.len() by {}
            assert forall|x: int| 0 <= x < h.len() implies #[trigger] node_ok(
                h,
                x,
                self.max_degree,
            ) by {
                assert(node_ok(g, x, self.max_degree));
                assert forall|l: int| 0 <= l < h[x]@.len() implies #[trigger] layer_ok(
                    h,
                    x,
                    l,
                    self.max_degree,
                ) by {
                    assert(layer_ok(g, x, l, self.max_degree));
                    lemma_list_ok_stable(g, h, l, g[x]@[l]@);
                    if x == from && l == layer {
                        let list = h[x]@[l]@;
                        assert forall|j: int| 0 <= j < list.len() implies (#[trigger] list[j])
                            < h.len() && l < h[list[j] as int]@.len() by {
                            if list[j] != to {
                                assert(old_list[j] == list[j]);
                            }
                        }
                    }
                }
            }
        }
    }

    /// Adds the point at the store's last offset to the graph. It is present
    /// on the layers its offset fixes. On each of them that the graph has,
    /// its neighbours are the nearest nodes that an exploration for its own
    /// vector scores, which starts where the walk down from the entry node
    /// ends and, on each lower layer, at the nearest node of the layer
    /// above. Each neighbour is linked back to it. The node becomes the
    /// entry node if it has more layers than any before.
    pub fn insert(&mut self, store: &PointStore, metric: Distance, budget: usize)
        requires
            old(self).wf(),
            store.wf(),
            store.ids@.len() == old(self).links@.len() + 1,
        ensures
            final(self).wf(),
            final(self).links@.len() == old(self).links@.len() + 1,
            final(self).tombstones@ == old(self).tombstones@.push(false),
            final(self).max_degree == old(self).max_degree,
            final(self).links@[old(self).links@.len() as int]@.len() == level_of(
                old(self).links@.len() as nat,
            ) + 1,
            forall|x: int|
                0 <= x < old(self).links@.len() ==> (#[trigger] final(self).links@[x])@.len() == old(
                    self,
                ).links@[x]@.len(),
            old(self).links@.len() > 0 ==> final(self).links@[old(self).links@.len() as int]@[0]@.len()
                >= 1,
            final(self).entry == if old(self).links@.len() == 0 || level_of(
                old(self).links@.len() as nat,
            ) + 1 > old(self).links@[old(self).entry as int]@.len() {
                old(self).links@.len() as int
            } else {
                old(self).entry as int
            },
            Self::linked_in(*old(self), *final(self), store, metric, budget),
            Self::linked_back(*old(self), *final(self), store, metric),
    {
        let n: usize = self.links.len();
        let level: usize = level_for(n);
        let ghost g = self.links@;
        let ghost before = *self;
        if n == 0 {
            let lists = empty_lists(level + 1);
            self.links.push(lists);
            self.tombstones.push(false);
            self.entry = 0;
            proof {
                let h = self.links@;
                assert forall|l: int| 0 <= l < h[0]@.len() implies #[trigger] layer_ok(
                    h,
                    0,
                    l,
                    self.max_degree,
                ) by {}
            }
            return ;
        }
        assert(node_ok(g, self.entry as int, self.max_degree));
        let top: usize = self.links[self.entry].len() - 1;
        let start_layer: usize = if level < top {
            level
        } else {
            top
        };
        assert(start_layer == before.shared_layer(n as nat));
        assert(store.vectors@[n as int]@.len() == store.dim);
        let ghost query = store.vectors@[n as int]@;
        let ghost entry = self.entry as int;
        let walk = self.descend(store, metric, &store.vectors[n], start_layer, budget);
        let mut cur: usize = walk.0;
        let mut lists: Vec<Vec<usize>> = empty_lists(level + 1);
        let nobody: Vec<u64> = Vec::new();
        let mut l: usize = start_layer + 1;
        while l > 0
            invariant
                self.wf(),
                self.links@ == g,
                *self == before,
                store.wf(),
                store.ids@.len() == n + 1,
                n == g.len(),
                n > 0,
                query == store.vectors@[n as int]@,
                entry == self.entry,
                l <= start_layer + 1,
                start_layer <= level,
                lists@.len() == level + 1,
                cur < n,
                l > 0 ==> l - 1 < g[cur as int]@.len() && cur as int == link_start(
                    g,
                    store,
                    metric,
                    query,
                    entry,
                    start_layer as int,
                    budget as nat,
                    l - 1,
                ),
                l == 0 ==> lists@[0]@.len() >= 1,
                forall|i: int|
                    0 <= i < lists@.len() ==> (#[trigger] lists@[i])@.len() <= self.max_degree
                        && list_ok(g, i, lists@[i]@) && no_repeat(lists@[i]@),
                forall|i: int| 0 <= i < l || start_layer < i < lists@.len() ==> (#[trigger] lists@[i])@.len() == 0,
                forall|i: int|
                    l <= i <= start_layer ==> links_found(
                        store,
                        metric,
                        query,
                        (#[trigger] lists@[i])@,
                        scored_from(
                            g,
                            store,
                            metric,
                            query,
                            link_start(
                                g,
                                store,
                                metric,
                                query,
                                entry,
                                start_layer as int,
                                budget as nat,
                                i,
                            ),
                            i,
                            budget as nat,
                        ),
                        self.max_degree as int,
                    ),
            decreases l,
        {
            l = l - 1;
            assert(store.vectors@[n as int]@.len() == store.dim);
            let found = self.explore(
                store,
                metric,
                &store.vectors[n],
                cur,
                l,
                budget,
                self.max_degree,
                None,
                &nobody,
            );
            let ghost seen = found.visited@;
            let ghost points = found.points@;
            let ghost hits = found.offsets@;
            let ghost from = cur as int;
            let near: Vec<usize> = found.offsets;
            proof {
                let own = store.scored_at(metric, query, from);
                assert(seen[from]);
                assert(covers(points, self.max_degree as int, own));
                if points.contains(own) {
                    let w = choose|w: int| 0 <= w < points.len() && points[w] == own;
                }
                assert(near@.len() >= 1);
                assert(points =~= points_of(store, metric, query, hits));
                assert forall|o: int| 0 <= o < seen.len() && #[trigger] seen[o] implies covers(
                    points,
                    self.max_degree as int,
                    store.scored_at(metric, query, o),
                ) by {}
                assert forall|i: int, j: int| 0 <= i < j < hits.len() implies hits[i] != hits[j] by {
                    assert(outranks(points[i], points[j]));
                    lemma_outranks_asymmetric(points[i], points[i]);
                }
                // the nearest node scored is the first of the list
                let none = nothing(n as nat);
                let c = hits[0] as int;
                assert forall|o: int| #[trigger] waiting(seen, none, o) && o != c implies outranks(
                    store.scored_at(metric, query, c),
                    store.scored_at(metric, query, o),
                ) by {
                    let x = store.scored_at(metric, query, o);
                    assert(covers(points, self.max_degree as int, x));
                    if points.contains(x) {
                        let i = choose|i: int| 0 <= i < points.len() && points[i] == x;
                        assert(store.ids@[hits[i] as int] == store.ids@[o]);
                        assert(hits[i] == o);
                        assert(outranks(points[0], points[i]));
                    } else {
                        assert(outranks(points[0], x));
                    }
                }
                assert(waiting(seen, none, c));
                assert(is_next(store, metric, query, seen, none, c));
                let c2 = next_up(store, metric, query, seen, none);
                assert(is_next(store, metric, query, seen, none, c2));
                if c2 != c {
                    assert(waiting(seen, none, c2));
                    lemma_outranks_asymmetric(
                        store.scored_at(metric, query, c),
                        store.scored_at(metric, query, c2),
                    );
                }
                assert(c2 == c);
            }
            cur = near[0];
            assert(list_ok(g, l as int, near@));
            lists[l] = near;
        }
        self.links.push(lists);
        self.tombstones.push(false);
        if level > top {
            self.entry = n;
        }
        proof {
            let h = self.links@;
            assert forall|x: int| 0 <= x < h.len() implies #[trigger] node_ok(
                h,
                x,
                self.max_degree,
            ) by {
                if x < n {
                    assert(h[x] == g[x]);
                    assert(node_ok(g, x, self.max_degree));
                }
                assert forall|l: int| 0 <= l < h[x]@.len() implies #[trigger] layer_ok(
                    h,
                    x,
                    l,
                    self.max_degree,
                ) by {
                    if x < n {
                        assert(layer_ok(g, x, l, self.max_degree));
                    }
                    lemma_list_ok_stable(g, h, l, h[x]@[l]@);
                }
            }
            assert forall|x: int| 0 <= x < h.len() implies (#[trigger] h[x])@.len()
                <= h[self.entry as int]@.len() by {
                if x < n {
                    assert(h[x] == g[x]);
                }
            }
        }
        let ghost own = self.links@[n as int];
        let ghost pushed = self.links@;
        let ghost max_degree = self.max_degree;
        proof {
            assert forall|x: int, l: int| 0 <= x < n && 0 <= l < g[x]@.len() implies back_link(
                store,
                metric,
                max_degree,
                x,
                n,
                (#[trigger] g[x]@[l])@,
                self.links@[x]@[l]@,
                among_first(own@[l]@, done_upto(own@, 0, 0, l), x),
            ) by {
                assert(pushed[x] == g[x]);
            }
        }
        let mut layer: usize = 0;
        while layer <= start_layer
            invariant
                self.wf(),
                store.wf(),
                before.wf(),
                g == before.links@,
                n == g.len(),
                n > 0,
                max_degree == before.max_degree,
                max_degree == self.max_degree,
                store.ids@.len() == n + 1,
                self.links@.len() == n + 1,
                self.tombstones@ == old(self).tombstones@.push(false),
                self.max_degree == old(self).max_degree,
                self.entry == if level > top { n } else { old(self).entry },
                layer <= start_layer + 1,
                start_layer < own@.len(),
                start_layer < MAX_LAYERS,
                self.links@[n as int] == own,
                forall|i: int|
                    0 <= i < own@.len() ==> list_ok(g, i, (#[trigger] own@[i])@) && no_repeat(own@[i]@),
                forall|x: int|
                    0 <= x < n + 1 ==> (#[trigger] self.links@[x])@.len() == pushed[x]@.len(),
                forall|x: int| 0 <= x < n ==> (#[trigger] pushed[x]) == g[x],
                forall|x: int, l: int|
                    0 <= x < n && 0 <= l < g[x]@.len() ==> back_link(
                        store,
                        metric,
                        max_degree,
                        x,
                        n,
                        (#[trigger] g[x]@[l])@,
                        self.links@[x]@[l]@,
                        among_first(own@[l]@, done_upto(own@, layer as int, 0, l), x),
                    ),
            decreases start_layer + 1 - layer,
        {
            let mut j: usize = 0;
            while j < self.links[n][layer].len()
                invariant
                    self.wf(),
                    store.wf(),
                    before.wf(),
                    g == before.links@,
                    n == g.len(),
                    n > 0,
                    max_degree == before.max_degree,
                    max_degree == self.max_degree,
                    store.ids@.len() == n + 1,
                    self.links@.len() == n + 1,
                    self.tombstones@ == old(self).tombstones@.push(false),
                    self.max_degree == old(self).max_degree,
                    self.entry == if level > top { n } else { old(self).entry },
                    layer <= start_layer,
                    start_layer < own@.len(),
                    self.links@[n as int] == own,
                    j <= own@[layer as int]@.len(),
                    forall|i: int|
                        0 <= i < own@.len() ==> list_ok(g, i, (#[trigger] own@[i])@) && no_repeat(
                            own@[i]@,
                        ),
                    forall|x: int|
                        0 <= x < n + 1 ==> (#[trigger] self.links@[x])@.len() == pushed[x]@.len(),
                    forall|x: int| 0 <= x < n ==> (#[trigger] pushed[x]) == g[x],
                    forall|x: int, l: int|
                        0 <= x < n && 0 <= l < g[x]@.len() ==> back_link(
                            store,
                            metric,
                            max_degree,
                            x,
                            n,
                            (#[trigger] g[x]@[l])@,
                            self.links@[x]@[l]@,
                            among_first(own@[l]@, done_upto(own@, layer as int, j as int, l), x),
                        ),
                decreases own@[layer as int]@.len() - j,
            {
                let ghost was = *self;
                let ghost list = own@[layer as int]@;
                assert(list_ok(g, layer as int, list) && no_repeat(list));
                let nb: usize = self.links[n][layer][j];
                assert(nb == list[j as int]);
                assert(nb < n);
                proof {
                    assert(!among_first(list, j as int, nb as int)) by {
                        if among_first(list, j as int, nb as int) {
                            let i = choose|i: int| 0 <= i < j && (#[trigger] list[i]) as int == nb as int;
                            assert(list[i] != list[j as int]);
                        }
                    }
                    assert(back_link(
                        store,
                        metric,
                        max_degree,
                        nb as int,
                        n,
                        g[nb as int]@[layer as int]@,
                        was.links@[nb as int]@[layer as int]@,
                        among_first(list, done_upto(own@, layer as int, j as int, layer as int), nb as int),
                    ));
                    assert(was.links@[nb as int]@[layer as int]@ == g[nb as int]@[layer as int]@);
                }
                self.add_link(store, metric, nb, layer, n);
                proof {
                    assert(self.links@[n as int] == was.links@[n as int]);
                    assert forall|x: int, l: int| 0 <= x < n && 0 <= l < g[x]@.len() implies back_link(
                        store,
                        metric,
                        max_degree,
                        x,
                        n,
                        (#[trigger] g[x]@[l])@,
                        self.links@[x]@[l]@,
                        among_first(own@[l]@, done_upto(own@, layer as int, j + 1, l), x),
                    ) by {
                        assert(back_link(
                            store,
                            metric,
                            max_degree,
                            x,
                            n,
                            g[x]@[l]@,
                            was.links@[x]@[l]@,
                            among_first(own@[l]@, done_upto(own@, layer as int, j as int, l), x),
                        ));
                        assert(was.links@[x]@.len() == g[x]@.len());
                        if x == nb && l == layer {
                            assert(list[j as int] as int == x);
                            assert(among_first(list, j + 1, x));
                            assert(linked(
                                store,
                                metric,
                                max_degree,
                                nb as int,
                                n,
                                g[nb as int]@[layer as int]@,
                                self.links@[nb as int]@[layer as int]@,
                            ));
                        } else {
                            if x == nb {
                                assert(self.links@[x]@[l] == was.links@[x]@[l]);
                            } else {
                                assert(self.links@[x] == was.links@[x]);
                            }
                            assert(self.links@[x]@[l]@ == was.links@[x]@[l]@);
                            if l != layer {
                                assert(done_upto(own@, layer as int, j + 1, l) == done_upto(
                                    own@,
                                    layer as int,
                                    j as int,
                                    l,
                                ));
                            }
                            if l == layer {
                                if among_first(list, j + 1, x) {
                                    let i = choose|i: int| 0 <= i < j + 1 && (#[trigger] list[i]) as int == x;
                                    assert(i < j);
                                    assert(among_first(list, j as int, x));
                                }
                                if among_first(list, j as int, x) {
                                    let i = choose|i: int| 0 <= i < j && (#[trigger] list[i]) as int == x;
                                    assert(0 <= i < j + 1 && list[i] as int == x);
                                }
                            }
                        }
                    }
                }
                j = j + 1;
            }
            proof {
                assert forall|x: int, l: int| 0 <= x < n && 0 <= l < g[x]@.len() implies back_link(
                    store,
                    metric,
                    max_degree,
                    x,
                    n,
                    (#[trigger] g[x]@[l])@,
                    self.links@[x]@[l]@,
                    among_first(own@[l]@, done_upto(own@, layer + 1, 0, l), x),
                ) by {
                    assert(done_upto(own@, layer + 1, 0, l) == done_upto(
                        own@,
                        layer as int,
                        j as int,
                        l,
                    ));
                }
            }
            layer = layer + 1;
        }
        proof {
            let fin = *self;
            assert forall|x: int, l: int| 0 <= x < n && 0 <= l < g[x]@.len() implies back_link(
                store,
                metric,
                max_degree,
                x,
                n,
                (#[trigger] g[x]@[l])@,
                fin.links@[x]@[l]@,
                l < own@.len() && among_first(own@[l]@, own@[l]@.len() as int, x),
            ) by {
                assert(back_link(
                    store,
                    metric,
                    max_degree,
                    x,
                    n,
                    g[x]@[l]@,
                    fin.links@[x]@[l]@,
                    among_first(own@[l]@, done_upto(own@, start_layer + 1, 0, l), x),
                ));
                if l > start_layer && l < own@.len() {
                    assert(own@[l]@.len() == 0);
                }
            }
        }
    }
}

} // verus!
