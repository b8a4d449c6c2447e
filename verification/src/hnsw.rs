//! A small navigable graph over slot indices, searched greedily on layer 0.
use vstd::prelude::*;
use vstd::set_lib::{lemma_int_range, lemma_len_subset, set_int_range};

verus! {

/// Construction parameters of the graph.
#[derive(Clone, Debug)]
pub struct HnswConfig {
    /// The most neighbours the entry point takes on layer 0.
    pub m: usize,
    pub ef_construction: usize,
    /// Number of neighbour lists each new node gets.
    pub max_layers: usize,
}

/// One node: a neighbour list per layer (layer 0 is the dense bottom layer).
#[derive(Clone, Debug)]
pub struct HnswNode {
    pub neighbors: Vec<Vec<usize>>,
}

/// The graph: node `i` stands for slot `i` of a shard.
#[derive(Clone, Debug)]
pub struct HnswIndex {
    pub nodes: Vec<HnswNode>,
    pub entry_point: Option<usize>,
    pub config: HnswConfig,
}

impl HnswNode {
    pub open spec fn layers(&self) -> Seq<Seq<usize>> {
        self.neighbors@.map_values(|l: Vec<usize>| l@)
    }
}

/// Every node has a layer 0, and every layer-0 neighbour is a node.
pub open spec fn graph_wf(g: Seq<Seq<Seq<usize>>>) -> bool {
    &&& forall|i: int| 0 <= i < g.len() ==> (#[trigger] g[i]).len() >= 1
    &&& forall|i: int, k: int|
        0 <= i < g.len() && 0 <= k < g[i][0].len() ==> (#[trigger] g[i][0][k]) < g.len()
}

/// `g` padded with fresh nodes (each with `layers` empty lists) up to `len` nodes.
pub open spec fn grown(g: Seq<Seq<Seq<usize>>>, len: int, layers: nat) -> Seq<Seq<Seq<usize>>> {
    if g.len() >= len {
        g
    } else {
        g + Seq::new(
            (len - g.len()) as nat,
            |i: int| Seq::new(layers, |j: int| Seq::<usize>::empty()),
        )
    }
}

/// `v` appended to the layer-0 list of node `at`.
pub open spec fn push_layer0(g: Seq<Seq<Seq<usize>>>, at: int, v: usize) -> Seq<Seq<Seq<usize>>> {
    g.update(at, g[at].update(0, g[at][0].push(v)))
}

/// The two layer-0 links that tie `i` to node `a`.
pub open spec fn linked(g: Seq<Seq<Seq<usize>>>, a: int, i: int) -> Seq<Seq<Seq<usize>>> {
    push_layer0(push_layer0(g, a, i as usize), i, a as usize)
}

/// The first node from `j` on, other than `idx` and the entry point `e`, that is already
/// linked into the graph (it has a layer-0 neighbour) and has fewer than `m` of them; `-1`
/// when there is none.
pub open spec fn first_open(g: Seq<Seq<Seq<usize>>>, e: int, idx: int, m: nat, j: int) -> int
    decreases g.len() - j,
{
    if j < 0 || j >= g.len() {
        -1
    } else if j != idx && j != e && g[j][0].len() > 0 && g[j][0].len() < m {
        j
    } else {
        first_open(g, e, idx, m, j + 1)
    }
}

/// The first node from `j` on, other than `idx` and the entry point `e`, that is already
/// linked into the graph; `-1` when there is none.
pub open spec fn first_linked(g: Seq<Seq<Seq<usize>>>, e: int, idx: int, j: int) -> int
    decreases g.len() - j,
{
    if j < 0 || j >= g.len() {
        -1
    } else if j != idx && j != e && g[j][0].len() > 0 {
        j
    } else {
        first_linked(g, e, idx, j + 1)
    }
}

/// The node a new node `idx` is linked to (`-1` for none): nothing when `idx` is the entry
/// point `e` itself; the entry point while it has fewer than `m` layer-0 neighbours; else the
/// first other node already linked in that has room, else the first other node already linked
/// in. The entry point never takes more than `m` neighbours this way.
pub open spec fn anchor(g: Seq<Seq<Seq<usize>>>, e: int, idx: int, m: nat) -> int {
    if idx == e {
        -1
    } else if g[e][0].len() < m {
        e
    } else if first_open(g, e, idx, m, 0) >= 0 {
        first_open(g, e, idx, m, 0)
    } else {
        first_linked(g, e, idx, 0)
    }
}

/// Node `a` takes `i` as a neighbour when it is a node other than `i` and does not list `i`
/// yet.
pub open spec fn should_link(g: Seq<Seq<Seq<usize>>>, a: int, i: int) -> bool {
    0 <= a && a != i && !g[a][0].contains(i as usize)
}

/// `p` is a walk along layer-0 links.
pub open spec fn is_path(g: Seq<Seq<Seq<usize>>>, p: Seq<int>) -> bool {
    &&& p.len() >= 1
    &&& forall|k: int| 0 <= k < p.len() ==> 0 <= #[trigger] p[k] < g.len()
    &&& forall|k: int| 0 <= k < p.len() - 1 ==> #[trigger] g[p[k]][0].contains(p[k + 1] as usize)
}

/// Node `to` can be reached from node `from` along layer-0 links.
pub open spec fn reachable(g: Seq<Seq<Seq<usize>>>, from: int, to: int) -> bool {
    exists|p: Seq<int>| #[trigger] is_path(g, p) && p[0] == from && p.last() == to
}

/// The entry point is a node, and every node that is linked into the graph (has a layer-0
/// neighbour) can be reached from it; with no entry point, no node is linked.
pub open spec fn navigable(g: Seq<Seq<Seq<usize>>>, entry: Option<usize>) -> bool {
    match entry {
        None => forall|i: int| 0 <= i < g.len() ==> (#[trigger] g[i])[0].len() == 0,
        Some(e) => {
            &&& e < g.len()
            &&& forall|i: int|
                0 <= i < g.len() && (#[trigger] g[i])[0].len() > 0 ==> reachable(g, e as int, i)
        },
    }
}

/// Layer-0 links go both ways.
pub open spec fn links_symmetric(g: Seq<Seq<Seq<usize>>>) -> bool {
    forall|i: int, j: int|
        0 <= i < g.len() && 0 <= j < g.len() ==> (#[trigger] g[i][0].contains(j as usize)
            <==> #[trigger] g[j][0].contains(i as usize))
}

/// Score `a` is strictly higher than score `b`; an absent score compares with nothing.
pub open spec fn better(a: Option<u64>, b: Option<u64>) -> bool {
    a is Some && b is Some && a->0 > b->0
}

/// One pass over a neighbour list, left to right: each unvisited neighbour is visited and
/// becomes the current node when it scores better than the current one.
pub open spec fn scan(list: Seq<usize>, scores: Seq<Option<u64>>, visited: Set<int>, curr: int) -> (
    Set<int>,
    int,
)
    decreases list.len(),
{
    if list.len() == 0 {
        (visited, curr)
    } else {
        let (v, c) = scan(list.drop_last(), scores, visited, curr);
        let nb = list.last() as int;
        if v.contains(nb) {
            (v, c)
        } else if better(scores[nb], scores[c]) {
            (v.insert(nb), nb)
        } else {
            (v.insert(nb), c)
        }
    }
}

/// Passes over the layer-0 list of the current node until a pass moves nowhere.
pub open spec fn walk(
    g: Seq<Seq<Seq<usize>>>,
    scores: Seq<Option<u64>>,
    visited: Set<int>,
    curr: int,
    fuel: nat,
) -> int
    decreases fuel,
{
    if fuel == 0 {
        curr
    } else {
        let (v, c) = scan(g[curr][0], scores, visited, curr);
        if c == curr {
            curr
        } else {
            walk(g, scores, v, c, (fuel - 1) as nat)
        }
    }
}

/// Where the greedy layer-0 search from `ep` stops.
pub open spec fn greedy_result(g: Seq<Seq<Seq<usize>>>, scores: Seq<Option<u64>>, ep: int) -> int {
    walk(g, scores, set![ep], ep, (g.len() + 1) as nat)
}

impl HnswIndex {
    /// The neighbour lists of every node, by layer.
    pub open spec fn graph(&self) -> Seq<Seq<Seq<usize>>> {
        self.nodes@.map_values(|n: HnswNode| n.layers())
    }

    pub open spec fn wf(&self) -> bool {
        &&& self.config.max_layers >= 1
        &&& graph_wf(self.graph())
        &&& (self.entry_point matches Some(e) ==> e < self.nodes.len())
    }

    /// The graph after `insert(idx)`.
    pub open spec fn inserted_graph(&self, idx: int) -> Seq<Seq<Seq<usize>>> {
        let g = grown(self.graph(), idx + 1, self.config.max_layers as nat);
        match self.entry_point {
            None => g,
            Some(e) => {
                let a = anchor(g, e as int, idx, self.config.m as nat);
                if should_link(g, a, idx) {
                    linked(g, a, idx)
                } else {
                    g
                }
            },
        }
    }

    /// An empty graph (16 neighbours for the entry point, 128 for construction, 5 layers).
    pub fn new() -> (r: Self)
        ensures
            r.wf(),
            r.graph() == Seq::<Seq<Seq<usize>>>::empty(),
            r.nodes@.len() == 0,
            navigable(r.graph(), r.entry_point),
            r.entry_point is None,
            r.config.m == 16,
            r.config.ef_construction == 128,
            r.config.max_layers == 5,
    {
        let r = HnswIndex {
            nodes: Vec::new(),
            entry_point: None,
            config: HnswConfig { m: 16, ef_construction: 128, max_layers: 5 },
        };
        assert(r.graph() =~= Seq::<Seq<Seq<usize>>>::empty());
        r
    }

    fn push_link(&mut self, at: usize, target: usize)
        requires
            at < old(self).nodes.len(),
            old(self).graph()[at as int].len() >= 1,
        ensures
            final(self).graph() == push_layer0(old(self).graph(), at as int, target),
            final(self).entry_point == old(self).entry_point,
            final(self).config == old(self).config,
            final(self).nodes.len() == old(self).nodes.len(),
    {
        let mut node = HnswNode { neighbors: Vec::new() };
        self.nodes.set_and_swap(at, &mut node);
        let mut list: Vec<usize> = Vec::new();
        assert(node.layers().len() == node.neighbors@.len());
        node.neighbors.set_and_swap(0, &mut list);
        list.push(target);
        node.neighbors.set(0, list);
        self.nodes.set(at, node);
        proof {
            let g0 = old(self).graph();
            assert(node.layers() =~= g0[at as int].update(0, g0[at as int][0].push(target)));
            assert(self.graph() =~= push_layer0(g0, at as int, target));
        }
    }

    /// Adds slot `idx` to the graph: grows the node list to cover it, makes it the entry
    /// point of an empty graph, or else links it on layer 0 with its [`anchor`] (the entry
    /// point while it has room), if there is one and it does not list `idx` already. The
    /// entry point never gets more than `m` neighbours this way.
    pub fn insert(&mut self, idx: usize)
        requires
            old(self).wf(),
            idx < usize::MAX,
        ensures
            final(self).wf(),
            final(self).config == old(self).config,
            final(self).graph() == old(self).inserted_graph(idx as int),
            final(self).entry_point == (match old(self).entry_point {
                None => Some(idx),
                Some(e) => Some(e),
            }),
            final(self).nodes.len() == if old(self).nodes.len() > idx {
                old(self).nodes.len()
            } else {
                (idx + 1) as usize
            },
            old(self).entry_point is Some && old(self).graph()[old(self).entry_point->0 as int][0].len()
                <= old(self).config.m ==> final(self).graph()[old(self).entry_point->0 as int][0].len()
                <= old(self).config.m,
    {
        proof {
            if old(self).entry_point is Some && old(self).graph()[old(self).entry_point->0 as int][0].len()
                <= old(self).config.m {
                lemma_insert_keeps_entry_cap(*old(self), idx as int);
            }
        }
        let ghost g0 = old(self).graph();
        let ghost layers = old(self).config.max_layers as nat;
        assert(self.graph() =~= grown(g0, self.nodes.len() as int, layers));
        while self.nodes.len() <= idx
            invariant
                self.wf(),
                self.config == old(self).config,
                self.entry_point == old(self).entry_point,
                g0 == old(self).graph(),
                layers == self.config.max_layers,
                old(self).nodes.len() <= self.nodes.len() <= if old(self).nodes.len() > idx {
                    old(self).nodes.len()
                } else {
                    (idx + 1) as usize
                },
                self.graph() == grown(g0, self.nodes.len() as int, layers),
                idx < usize::MAX,
            decreases idx + 1 - self.nodes.len(),
        {
            let mut lists: Vec<Vec<usize>> = Vec::new();
            let mut j: usize = 0;
            while j < self.config.max_layers
                invariant
                    j <= self.config.max_layers,
                    lists@.len() == j,
                    forall|k: int| 0 <= k < j ==> (#[trigger] lists@[k])@ == Seq::<usize>::empty(),
                decreases self.config.max_layers - j,
            {
                lists.push(Vec::new());
                j += 1;
            }
            let node = HnswNode { neighbors: lists };
            let ghost before = self.graph();
            assert(node.layers() =~= Seq::new(layers, |j: int| Seq::<usize>::empty()));
            self.nodes.push(node);
            assert(self.graph() =~= before.push(node.layers()));
            assert(grown(g0, self.nodes.len() as int, layers) =~= before.push(node.layers()));
        }
        let ghost g1 = self.graph();
        assert(g1 == grown(g0, idx + 1, layers));
        match self.entry_point {
            Some(e) => {
                let m = self.config.m;
                let ghost mm = m as nat;
                let ghost av = anchor(g1, e as int, idx as int, mm);
                proof {
                    lemma_anchor_range(g1, e as int, idx as int, mm);
                }
                assert(self.nodes@[e as int].layers().len() == self.nodes@[e as int].neighbors@.len());
                assert(g1[e as int].len() >= 1);
                assert(self.nodes@[e as int].neighbors@[0]@ == g1[e as int][0]);
                let a: Option<usize> = if idx == e {
                    None
                } else if self.nodes[e].neighbors[0].len() < m {
                    Some(e)
                } else {
                    // the first other linked node with room
                    let mut j: usize = 0;
                    let mut found: Option<usize> = None;
                    while j < self.nodes.len() && found.is_none()
                        invariant
                            self.graph() == g1,
                            graph_wf(g1),
                            g1.len() == self.nodes.len(),
                            e < self.nodes.len(),
                            mm == m,
                            j <= self.nodes.len(),
                            found is None ==> first_open(g1, e as int, idx as int, mm, 0) == first_open(
                                g1,
                                e as int,
                                idx as int,
                                mm,
                                j as int,
                            ),
                            found matches Some(f) ==> f == first_open(g1, e as int, idx as int, mm, 0),
                        decreases self.nodes.len() - j,
                    {
                        assert(self.nodes@[j as int].layers().len() == self.nodes@[j as int].neighbors@.len());
                        assert(g1[j as int].len() >= 1);
                        assert(self.nodes@[j as int].neighbors@[0]@ == g1[j as int][0]);
                        let len = self.nodes[j].neighbors[0].len();
                        if j != idx && j != e && len > 0 && len < m {
                            found = Some(j);
                        }
                        j += 1;
                    }
                    match found {
                        Some(f) => Some(f),
                        None => {
                            // else the first other linked node
                            let mut j2: usize = 0;
                            let mut found2: Option<usize> = None;
                            while j2 < self.nodes.len() && found2.is_none()
                                invariant
                                    self.graph() == g1,
                                    graph_wf(g1),
                                    g1.len() == self.nodes.len(),
                                    e < self.nodes.len(),
                                    j2 <= self.nodes.len(),
                                    found2 is None ==> first_linked(g1, e as int, idx as int, 0)
                                        == first_linked(g1, e as int, idx as int, j2 as int),
                                    found2 matches Some(f) ==> f == first_linked(g1, e as int, idx as int, 0),
                                decreases self.nodes.len() - j2,
                            {
                                assert(self.nodes@[j2 as int].layers().len()
                                    == self.nodes@[j2 as int].neighbors@.len());
                                assert(g1[j2 as int].len() >= 1);
                                assert(self.nodes@[j2 as int].neighbors@[0]@ == g1[j2 as int][0]);
                                if j2 != idx && j2 != e && self.nodes[j2].neighbors[0].len() > 0 {
                                    found2 = Some(j2);
                                }
                                j2 += 1;
                            }
                            found2
                        },
                    }
                };
                assert(a matches Some(x) ==> x as int == av);
                assert(a is None ==> av == -1);
                match a {
                    Some(a) => {
                        assert(self.nodes@[a as int].layers().len() == self.nodes@[a as int].neighbors@.len());
                        assert(g1[a as int].len() >= 1);
                        assert(self.nodes@[a as int].neighbors@[0]@ == g1[a as int][0]);
                        let present = vec_contains(&self.nodes[a].neighbors[0], idx);
                        if !present {
                            self.push_link(a, idx);
                            self.push_link(idx, a);
                            proof {
                                let g = self.graph();
                                assert(g == linked(g1, a as int, idx as int));
                                assert forall|i: int| 0 <= i < g.len() implies (#[trigger] g[i]).len() >= 1 by {
                                    assert(g1[i].len() >= 1);
                                }
                                assert forall|i: int, k: int|
                                    0 <= i < g.len() && 0 <= k < g[i][0].len() implies (
                                    #[trigger] g[i][0][k]) < g.len() by {
                                    let p = push_layer0(g1, a as int, idx);
                                    if i == idx as int {
                                        if k < p[i][0].len() {
                                            assert(g1[i][0][k] < g1.len());
                                        }
                                    } else if i == a as int {
                                        if k < g1[i][0].len() {
                                            assert(g1[i][0][k] < g1.len());
                                        }
                                    } else {
                                        assert(g1[i][0][k] < g1.len());
                                    }
                                }
                            }
                        }
                    },
                    None => {},
                }
            },
            None => {
                self.entry_point = Some(idx);
            },
        }
    }

    /// Greedy search on layer 0 from the entry point, for at most `k` results. `scores[i]` is
    /// how well node `i` matches the query (`None` compares with nothing). Returns no node for
    /// an empty graph or `k == 0`, else the one node where the walk stops.
    pub fn search(&self, scores: &Vec<Option<u64>>, k: usize) -> (r: Vec<usize>)
        requires
            self.wf(),
            scores.len() == self.nodes.len(),
        ensures
            r.len() <= 1,
            r.len() <= k,
            r.len() == 0 <==> (self.entry_point is None || k == 0),
            r.len() == 1 ==> r[0] < self.nodes.len() && r[0] as int == greedy_result(
                self.graph(),
                scores@,
                self.entry_point->0 as int,
            ),
            r.len() == 1 ==> !better(scores@[self.entry_point->0 as int], scores@[r[0] as int]),
            r.len() == 1 ==> forall|k: int|
                0 <= k < self.graph()[self.entry_point->0 as int][0].len() ==> !better(
                    #[trigger] scores@[self.graph()[self.entry_point->0 as int][0][k] as int],
                    scores@[r[0] as int],
                ),
            r.len() == 1 ==> forall|k: int|
                0 <= k < self.graph()[r[0] as int][0].len() ==> !better(
                    #[trigger] scores@[self.graph()[r[0] as int][0][k] as int],
                    scores@[r[0] as int],
                ),
    {
        if k == 0 {
            return Vec::new();
        }
        let ep = match self.entry_point {
            Some(i) => i,
            None => {
                return Vec::new();
            },
        };
        let n = self.nodes.len();
        let ghost g = self.graph();
        let ghost s = scores@;
        let mut visited: Vec<bool> = Vec::new();
        while visited.len() < n
            invariant
                visited.len() <= n,
                forall|i: int| 0 <= i < visited.len() ==> !(#[trigger] visited@[i]),
            decreases n - visited.len(),
        {
            visited.push(false);
        }
        visited.set(ep, true);
        let mut curr = ep;
        let mut curr_score = scores[ep];
        let ghost mut vis: Set<int> = set![ep as int];
        let ghost mut fuel: nat = (n + 1) as nat;
        proof {
            assert(vis =~= Set::new(|i: int| 0 <= i < n && visited@[i]));
            lemma_int_range(0, n as int);
            lemma_len_subset(vis, set_int_range(0, n as int));
        }
        loop
            invariant
                k > 0,
                n == self.nodes.len() == scores.len(),
                g == self.graph(),
                s == scores@,
                graph_wf(g),
                self.entry_point == Some(ep),
                ep < n,
                visited.len() == n,
                vis == Set::new(|i: int| 0 <= i < n && visited@[i]),
                vis.finite(),
                vis.subset_of(set_int_range(0, n as int)),
                vis.len() + fuel >= n + 2,
                curr < n,
                vis.contains(curr as int),
                curr_score == s[curr as int],
                greedy_result(g, s, ep as int) == walk(g, s, vis, curr as int, fuel),
                !better(s[ep as int], s[curr as int]),
                forall|x: int| vis.contains(x) ==> !better(#[trigger] s[x], s[curr as int]),
            decreases fuel,
        {
            proof {
                lemma_int_range(0, n as int);
                lemma_len_subset(vis, set_int_range(0, n as int));
            }
            let list = &self.nodes[curr].neighbors[0];
            let ghost l = g[curr as int][0];
            assert(list@ == l);
            let ghost vis0 = vis;
            let ghost c0 = curr as int;
            let mut changed = false;
            let mut j: usize = 0;
            assert(l.take(0) =~= Seq::<usize>::empty());
            while j < list.len()
                invariant
                    n == self.nodes.len() == scores.len(),
                    s == scores@,
                    list@ == l,
                    forall|k: int| 0 <= k < l.len() ==> #[trigger] l[k] < n,
                    j <= l.len(),
                    visited.len() == n,
                    vis == Set::new(|i: int| 0 <= i < n && visited@[i]),
                    (vis, curr as int) == scan(l.take(j as int), s, vis0, c0),
                    vis0.subset_of(vis),
                    vis.subset_of(set_int_range(0, n as int)),
                    vis0.contains(c0),
                    curr < n,
                    vis.contains(curr as int),
                    curr_score == s[curr as int],
                    changed == (curr as int != c0),
                    changed ==> !vis0.contains(curr as int),
                    !better(s[ep as int], s[c0]),
                    !better(s[ep as int], s[curr as int]),
                    forall|x: int| vis.contains(x) ==> !better(#[trigger] s[x], s[curr as int]),
                    forall|k: int| 0 <= k < j ==> vis.contains(#[trigger] l[k] as int),
                decreases l.len() - j,
            {
                let nb = list[j];
                let ghost t = l.take(j + 1);
                assert(t.drop_last() =~= l.take(j as int));
                assert(t.last() == nb);
                if !visited[nb] {
                    visited.set(nb, true);
                    let ghost old_curr = curr as int;
                    proof {
                        vis = vis.insert(nb as int);
                        assert(vis =~= Set::new(|i: int| 0 <= i < n && visited@[i]));
                    }
                    let sc = scores[nb];
                    let improves = match (sc, curr_score) {
                        (Some(a), Some(b)) => a > b,
                        _ => false,
                    };
                    if improves {
                        curr = nb;
                        curr_score = sc;
                        changed = true;
                    }
                    proof {
                        assert forall|x: int| vis.contains(x) implies !better(
                            #[trigger] s[x],
                            s[curr as int],
                        ) by {
                            if x != nb as int {
                                assert(!better(s[x], s[old_curr]));
                            }
                        }
                    }
                } else {
                    assert(vis.contains(nb as int));
                }
                j += 1;
            }
            assert(l.take(l.len() as int) =~= l);
            if !changed {
                let mut r: Vec<usize> = Vec::new();
                r.push(curr);
                proof {
                    assert forall|k: int|
                        0 <= k < g[curr as int][0].len() implies !better(
                        #[trigger] s[g[curr as int][0][k] as int],
                        s[curr as int],
                    ) by {
                        assert(vis.contains(l[k] as int));
                    }
                    law_greedy_beats_entry_neighbours(g, s, ep as int);
                }
                return r;
            }
            proof {
                assert(vis0.insert(curr as int).subset_of(vis));
                lemma_len_subset(vis0.insert(curr as int), vis);
                fuel = (fuel - 1) as nat;
            }
        }
    }
}

/// Whether `v` occurs in `list`.
pub fn vec_contains(list: &Vec<usize>, v: usize) -> (b: bool)
    ensures
        b == list@.contains(v),
{
    let mut i: usize = 0;
    while i < list.len()
        invariant
            i <= list.len(),
            forall|j: int| 0 <= j < i ==> list@[j] != v,
        decreases list.len() - i,
    {
        if list[i] == v {
            return true;
        }
        i += 1;
    }
    false
}

proof fn lemma_push_contains(s: Seq<usize>, x: usize, y: usize)
    ensures
        s.push(x).contains(y) <==> (s.contains(y) || x == y),
{
    if s.contains(y) {
        let k = choose|k: int| 0 <= k < s.len() && s[k] == y;
        assert(s.push(x)[k] == y);
    }
    if x == y {
        assert(s.push(x)[s.len() as int] == y);
    }
    if s.push(x).contains(y) {
        let k = choose|k: int| 0 <= k < s.len() + 1 && s.push(x)[k] == y;
        if k < s.len() {
            assert(s[k] == y);
        }
    }
}

proof fn lemma_first_open_range(g: Seq<Seq<Seq<usize>>>, e: int, idx: int, m: nat, j: int)
    ensures
        first_open(g, e, idx, m, j) == -1 || ({
            let f = first_open(g, e, idx, m, j);
            0 <= f < g.len() && f != idx && f != e && g[f][0].len() > 0
        }),
    decreases g.len() - j,
{
    if 0 <= j < g.len() && !(j != idx && j != e && g[j][0].len() > 0 && g[j][0].len() < m) {
        lemma_first_open_range(g, e, idx, m, j + 1);
    }
}

proof fn lemma_first_linked_range(g: Seq<Seq<Seq<usize>>>, e: int, idx: int, j: int)
    ensures
        first_linked(g, e, idx, j) == -1 || ({
            let f = first_linked(g, e, idx, j);
            0 <= f < g.len() && f != idx && f != e && g[f][0].len() > 0
        }),
    decreases g.len() - j,
{
    if 0 <= j < g.len() && !(j != idx && j != e && g[j][0].len() > 0) {
        lemma_first_linked_range(g, e, idx, j + 1);
    }
}

/// The anchor of a new node is none, or a node of the graph other than the new one: the entry
/// point while it has room, or a node already linked in.
proof fn lemma_anchor_range(g: Seq<Seq<Seq<usize>>>, e: int, idx: int, m: nat)
    requires
        0 <= e < g.len(),
    ensures
        anchor(g, e, idx, m) == -1 || ({
            let a = anchor(g, e, idx, m);
            &&& 0 <= a < g.len()
            &&& a != idx
            &&& (a == e ==> g[e][0].len() < m)
            &&& (a != e ==> g[a][0].len() > 0)
        }),
{
    lemma_first_open_range(g, e, idx, m, 0);
    lemma_first_linked_range(g, e, idx, 0);
}

/// Inserting keeps layer-0 links symmetric: if every layer-0 link goes both ways before
/// `insert(idx)`, every one does after it.
pub proof fn lemma_insert_keeps_links_symmetric(h: HnswIndex, idx: int)
    requires
        h.wf(),
        0 <= idx < usize::MAX,
        links_symmetric(h.graph()),
    ensures
        links_symmetric(h.inserted_graph(idx)),
{
    let g = grown(h.graph(), idx + 1, h.config.max_layers as nat);
    let g0 = h.graph();
    assert(g0.len() == h.nodes.len());
    assert(g.len() <= usize::MAX);
    assert forall|i: int, j: int| 0 <= i < g.len() && 0 <= j < g.len() implies (#[trigger] g[i][0].contains(
        j as usize,
    ) <==> #[trigger] g[j][0].contains(i as usize)) by {
        if i < g0.len() && j < g0.len() {
            assert(g0[i][0].contains(j as usize) <==> g0[j][0].contains(i as usize));
        } else if i >= g0.len() {
            assert(g[i][0] =~= Seq::<usize>::empty());
            if j < g0.len() {
                if g0[j][0].contains(i as usize) {
                    let k = choose|k: int| 0 <= k < g0[j][0].len() && g0[j][0][k] == i as usize;
                    assert(g0[j][0][k] < g0.len());
                }
            } else {
                assert(g[j][0] =~= Seq::<usize>::empty());
            }
        } else {
            assert(g[j][0] =~= Seq::<usize>::empty());
            if g0[i][0].contains(j as usize) {
                let k = choose|k: int| 0 <= k < g0[i][0].len() && g0[i][0][k] == j as usize;
                assert(g0[i][0][k] < g0.len());
            }
        }
    }
    match h.entry_point {
        None => {},
        Some(e0) => {
            let e = anchor(g, e0 as int, idx, h.config.m as nat);
            lemma_anchor_range(g, e0 as int, idx, h.config.m as nat);
            if should_link(g, e, idx) {
                let p = push_layer0(g, e, idx as usize);
                let q = push_layer0(p, idx, e as usize);
                assert forall|i: int, j: int|
                    0 <= i < q.len() && 0 <= j < q.len() implies (#[trigger] q[i][0].contains(j as usize)
                    <==> #[trigger] q[j][0].contains(i as usize)) by {
                    assert(q[i][0].contains(j as usize) <==> (g[i][0].contains(j as usize) || (i == e
                        && j == idx) || (i == idx && j == e))) by {
                        if i == e && i == idx {
                            assert(q[i][0] =~= g[i][0].push(idx as usize).push(e as usize));
                            lemma_push_contains(g[i][0], idx as usize, j as usize);
                            lemma_push_contains(g[i][0].push(idx as usize), e as usize, j as usize);
                        } else if i == e {
                            assert(q[i][0] =~= g[i][0].push(idx as usize));
                            lemma_push_contains(g[i][0], idx as usize, j as usize);
                        } else if i == idx {
                            assert(q[i][0] =~= g[i][0].push(e as usize));
                            lemma_push_contains(g[i][0], e as usize, j as usize);
                        } else {
                            assert(q[i][0] == g[i][0]);
                        }
                    }
                    assert(q[j][0].contains(i as usize) <==> (g[j][0].contains(i as usize) || (j == e
                        && i == idx) || (j == idx && i == e))) by {
                        if j == e && j == idx {
                            assert(q[j][0] =~= g[j][0].push(idx as usize).push(e as usize));
                            lemma_push_contains(g[j][0], idx as usize, i as usize);
                            lemma_push_contains(g[j][0].push(idx as usize), e as usize, i as usize);
                        } else if j == e {
                            assert(q[j][0] =~= g[j][0].push(idx as usize));
                            lemma_push_contains(g[j][0], idx as usize, i as usize);
                        } else if j == idx {
                            assert(q[j][0] =~= g[j][0].push(e as usize));
                            lemma_push_contains(g[j][0], e as usize, i as usize);
                        } else {
                            assert(q[j][0] == g[j][0]);
                        }
                    }
                }
            }
        },
    }
}

proof fn lemma_path_grows(g: Seq<Seq<Seq<usize>>>, q: Seq<Seq<Seq<usize>>>, p: Seq<int>)
    requires
        is_path(g, p),
        g.len() <= q.len(),
        forall|i: int, j: usize| 0 <= i < g.len() && #[trigger] g[i][0].contains(j) ==> q[i][0].contains(j),
    ensures
        is_path(q, p),
{
    assert forall|k: int| 0 <= k < p.len() - 1 implies #[trigger] q[p[k]][0].contains(p[k + 1] as usize) by {
        assert(g[p[k]][0].contains(p[k + 1] as usize));
    }
}

proof fn lemma_reachable_grows(g: Seq<Seq<Seq<usize>>>, q: Seq<Seq<Seq<usize>>>, a: int, b: int)
    requires
        reachable(g, a, b),
        g.len() <= q.len(),
        forall|i: int, j: usize| 0 <= i < g.len() && #[trigger] g[i][0].contains(j) ==> q[i][0].contains(j),
    ensures
        reachable(q, a, b),
{
    let p = choose|p: Seq<int>| #[trigger] is_path(g, p) && p[0] == a && p.last() == b;
    lemma_path_grows(g, q, p);
}

proof fn lemma_reachable_step(g: Seq<Seq<Seq<usize>>>, a: int, b: int, c: int)
    requires
        reachable(g, a, b),
        0 <= c < g.len(),
        g[b][0].contains(c as usize),
    ensures
        reachable(g, a, c),
{
    let p = choose|p: Seq<int>| #[trigger] is_path(g, p) && p[0] == a && p.last() == b;
    let p2 = p.push(c);
    assert forall|k: int| 0 <= k < p2.len() - 1 implies #[trigger] g[p2[k]][0].contains(p2[k + 1] as usize) by {
        if k < p.len() - 1 {
            assert(p2[k] == p[k] && p2[k + 1] == p[k + 1]);
        } else {
            assert(p2[k] == b && p2[k + 1] == c);
        }
    }
    assert(is_path(g, p2));
}

proof fn lemma_reachable_self(g: Seq<Seq<Seq<usize>>>, a: int)
    requires
        0 <= a < g.len(),
    ensures
        reachable(g, a, a),
{
    let p = seq![a];
    assert(is_path(g, p));
}

/// Inserting keeps the graph navigable: afterwards every node that is linked in, the new node
/// when it got a link, can be reached from the entry point along layer-0 links.
pub proof fn lemma_insert_keeps_navigable(h: HnswIndex, idx: int)
    requires
        h.wf(),
        0 <= idx < usize::MAX,
        navigable(h.graph(), h.entry_point),
    ensures
        navigable(
            h.inserted_graph(idx),
            match h.entry_point {
                None => Some(idx as usize),
                Some(e) => Some(e),
            },
        ),
        h.entry_point is None ==> reachable(h.inserted_graph(idx), idx, idx),
        idx < h.inserted_graph(idx).len(),
{
    let g0 = h.graph();
    let g = grown(g0, idx + 1, h.config.max_layers as nat);
    assert(g0.len() == h.nodes.len());
    assert(g.len() >= idx + 1);
    assert forall|i: int| 0 <= i < g.len() implies (#[trigger] g[i]) == (if i < g0.len() {
        g0[i]
    } else {
        Seq::new(h.config.max_layers as nat, |j: int| Seq::<usize>::empty())
    }) by {}
    assert forall|i: int, j: usize| 0 <= i < g0.len() && #[trigger] g0[i][0].contains(j) implies g[i][0].contains(
        j,
    ) by {}
    match h.entry_point {
        None => {
            assert(h.inserted_graph(idx) == g);
            assert((idx as usize) as int == idx);
            assert forall|i: int| 0 <= i < g.len() && (#[trigger] g[i])[0].len() > 0 implies reachable(
                g,
                idx,
                i,
            ) by {
                if i != idx {
                    if i < g0.len() {
                        assert(g0[i][0].len() == 0);
                    }
                }
                lemma_reachable_self(g, idx);
            }
            lemma_reachable_self(g, idx);
            assert(navigable(g, Some(idx as usize)));
        },
        Some(e0) => {
            let e = e0 as int;
            let m = h.config.m as nat;
            // the grown graph is navigable from e
            assert forall|i: int| 0 <= i < g.len() && (#[trigger] g[i])[0].len() > 0 implies reachable(
                g,
                e,
                i,
            ) by {
                assert(i < g0.len());
                assert(g[i] == g0[i]);
                assert(reachable(g0, e, i));
                lemma_reachable_grows(g0, g, e, i);
            }
            let a = anchor(g, e, idx, m);
            lemma_anchor_range(g, e, idx, m);
            lemma_reachable_self(g, e);
            if should_link(g, a, idx) {
                assert(reachable(g, e, a));
                let p = push_layer0(g, a, idx as usize);
                let q = push_layer0(p, idx, a as usize);
                assert forall|i: int, j: usize| 0 <= i < g.len() && #[trigger] g[i][0].contains(j) implies q[i][0].contains(
                    j,
                ) by {
                    if i == a {
                        lemma_push_contains(g[i][0], idx as usize, j);
                    }
                    if i == idx {
                        lemma_push_contains(p[i][0], a as usize, j);
                    }
                }
                assert(q[a][0].contains(idx as usize)) by {
                    lemma_push_contains(g[a][0], idx as usize, idx as usize);
                    if a == idx {
                    } else {
                        assert(q[a][0] == p[a][0]);
                    }
                }
                lemma_reachable_grows(g, q, e, a);
                lemma_reachable_step(q, e, a, idx);
                assert forall|i: int| 0 <= i < q.len() && (#[trigger] q[i])[0].len() > 0 implies reachable(
                    q,
                    e,
                    i,
                ) by {
                    if i == idx {
                    } else if i == a {
                    } else {
                        assert(q[i] == g[i]);
                        lemma_reachable_grows(g, q, e, i);
                    }
                }
                assert(h.inserted_graph(idx) == q);
                assert(navigable(q, Some(e0)));
            } else {
                assert(h.inserted_graph(idx) == g);
                assert(navigable(g, Some(e0)));
            }
        },
    }
}

/// No node lists itself on layer 0.
pub open spec fn no_self_links(g: Seq<Seq<Seq<usize>>>) -> bool {
    forall|i: int| 0 <= i < g.len() ==> !(#[trigger] g[i])[0].contains(i as usize)
}

/// Inserting never links a node to itself.
pub proof fn lemma_insert_keeps_no_self_links(h: HnswIndex, idx: int)
    requires
        h.wf(),
        0 <= idx < usize::MAX,
        no_self_links(h.graph()),
    ensures
        no_self_links(h.inserted_graph(idx)),
{
    let g0 = h.graph();
    let g = grown(g0, idx + 1, h.config.max_layers as nat);
    assert(g0.len() == h.nodes.len());
    assert forall|i: int| 0 <= i < g.len() implies !(#[trigger] g[i])[0].contains(i as usize) by {
        if i >= g0.len() {
            assert(g[i][0] =~= Seq::<usize>::empty());
        } else {
            assert(g[i] == g0[i]);
        }
    }
    match h.entry_point {
        None => {},
        Some(e0) => {
            let a = anchor(g, e0 as int, idx, h.config.m as nat);
            lemma_anchor_range(g, e0 as int, idx, h.config.m as nat);
            if should_link(g, a, idx) {
                let p = push_layer0(g, a, idx as usize);
                let q = push_layer0(p, idx, a as usize);
                assert forall|i: int| 0 <= i < q.len() implies !(#[trigger] q[i])[0].contains(i as usize) by {
                    if i == a {
                        lemma_push_contains(g[i][0], idx as usize, i as usize);
                    } else if i == idx {
                        lemma_push_contains(g[i][0], a as usize, i as usize);
                    } else {
                        assert(q[i] == g[i]);
                    }
                }
            }
        },
    }
}

/// Inserting never gives the entry point more than `m` layer-0 neighbours: one that has at
/// most `m` before has at most `m` after.
pub proof fn lemma_insert_keeps_entry_cap(h: HnswIndex, idx: int)
    requires
        h.wf(),
        0 <= idx < usize::MAX,
        h.entry_point is Some,
        h.graph()[h.entry_point->0 as int][0].len() <= h.config.m,
    ensures
        h.inserted_graph(idx)[h.entry_point->0 as int][0].len() <= h.config.m,
{
    let e = h.entry_point->0 as int;
    let m = h.config.m as nat;
    let g0 = h.graph();
    let g = grown(g0, idx + 1, h.config.max_layers as nat);
    assert(g0.len() == h.nodes.len());
    assert(g[e] == g0[e]);
    let a = anchor(g, e, idx, m);
    lemma_anchor_range(g, e, idx, m);
    if should_link(g, a, idx) {
        let p = push_layer0(g, a, idx as usize);
        let q = push_layer0(p, idx, a as usize);
        assert(idx != e);
        if a == e {
            assert(q[e][0] == g[e][0].push(idx as usize));
        } else {
            assert(q[e] == g[e]);
        }
    }
}

proof fn lemma_scan_dominates(list: Seq<usize>, s: Seq<Option<u64>>, visited: Set<int>, curr: int)
    ensures
        ({
            let (v, c) = scan(list, s, visited, curr);
            &&& (c == curr || better(s[c], s[curr]))
            &&& forall|x: int| #[trigger] v.contains(x) && !visited.contains(x) ==> !better(s[x], s[c])
            &&& forall|k: int| 0 <= k < list.len() ==> v.contains(#[trigger] list[k] as int)
            &&& forall|x: int| visited.contains(x) ==> #[trigger] v.contains(x)
        }),
    decreases list.len(),
{
    if list.len() > 0 {
        let rest = list.drop_last();
        lemma_scan_dominates(rest, s, visited, curr);
        let (v0, c0) = scan(rest, s, visited, curr);
        let nb = list.last() as int;
        let (v, c) = scan(list, s, visited, curr);
        assert forall|k: int| 0 <= k < list.len() implies v.contains(#[trigger] list[k] as int) by {
            if k < list.len() - 1 {
                assert(list[k] == rest[k]);
                assert(v0.contains(rest[k] as int));
            }
        }
        if !v0.contains(nb) && better(s[nb], s[c0]) {
            assert forall|x: int| #[trigger] v.contains(x) && !visited.contains(x) implies !better(
                s[x],
                s[c],
            ) by {
                if x != nb {
                    assert(!better(s[x], s[c0]));
                }
            }
        }
    }
}

proof fn lemma_walk_improves(
    g: Seq<Seq<Seq<usize>>>,
    s: Seq<Option<u64>>,
    visited: Set<int>,
    curr: int,
    fuel: nat,
)
    ensures
        walk(g, s, visited, curr, fuel) == curr || better(s[walk(g, s, visited, curr, fuel)], s[curr]),
    decreases fuel,
{
    if fuel > 0 {
        let (v, c) = scan(g[curr][0], s, visited, curr);
        lemma_scan_dominates(g[curr][0], s, visited, curr);
        if c != curr {
            lemma_walk_improves(g, s, v, c, (fuel - 1) as nat);
        }
    }
}

/// The greedy walk scans every layer-0 neighbour of the node it is at and moves to the best
/// of them: its result scores at least as well as the entry point and as every layer-0
/// neighbour of the entry point (a neighbour never scores strictly higher than the result).
pub proof fn law_greedy_beats_entry_neighbours(g: Seq<Seq<Seq<usize>>>, s: Seq<Option<u64>>, ep: int)
    ensures
        !better(s[ep], s[greedy_result(g, s, ep)]),
        forall|k: int|
            0 <= k < g[ep][0].len() ==> !better(#[trigger] s[g[ep][0][k] as int], s[greedy_result(g, s, ep)]),
{
    let fuel = (g.len() + 1) as nat;
    let (v, c) = scan(g[ep][0], s, set![ep], ep);
    lemma_scan_dominates(g[ep][0], s, set![ep], ep);
    let r = greedy_result(g, s, ep);
    if c == ep {
        assert(r == ep);
    } else {
        lemma_walk_improves(g, s, v, c, (fuel - 1) as nat);
        assert(r == walk(g, s, v, c, (fuel - 1) as nat));
    }
    assert forall|k: int| 0 <= k < g[ep][0].len() implies !better(
        #[trigger] s[g[ep][0][k] as int],
        s[r],
    ) by {
        let nb = g[ep][0][k] as int;
        assert(v.contains(nb));
        if nb != ep {
            assert(!better(s[nb], s[c]));
        }
    }
}

} // verus!
