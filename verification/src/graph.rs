use vstd::prelude::*;
use vstd::hash_map::StringHashMap;

verus! {

/// The mathematical picture of a [`Graph`]: the node labels in the order in
/// which they were first seen (a node's id is its position here), and for
/// each node the ids of its neighbours in the order in which they were added.
#[verifier::ext_equal]
pub struct GraphView {
    pub names: Seq<Seq<char>>,
    pub adj: Seq<Seq<int>>,
}

impl GraphView {
    /// The graph with no nodes.
    pub open spec fn empty() -> GraphView {
        GraphView { names: Seq::empty(), adj: Seq::empty() }
    }

    pub open spec fn node_count(self) -> nat {
        self.names.len()
    }

    pub open spec fn has_node(self, name: Seq<char>) -> bool {
        self.names.contains(name)
    }

    /// The id of a node: its position in the order of first appearance.
    pub open spec fn id_of(self, name: Seq<char>) -> int {
        self.names.index_of(name)
    }

    /// Node `b` is listed among the neighbours of node `a`.
    pub open spec fn is_neighbor(self, a: int, b: int) -> bool {
        self.adj[a].contains(b)
    }

    /// The undirected edge `u`–`v` is in the graph (`u == v` is a self-loop).
    pub open spec fn has_edge(self, u: Seq<char>, v: Seq<char>) -> bool {
        &&& self.has_node(u)
        &&& self.has_node(v)
        &&& self.is_neighbor(self.id_of(u), self.id_of(v))
    }

    /// Well-formedness: labels are distinct, every neighbour list holds ids
    /// of existing nodes with no repetition, and adjacency is symmetric.
    pub open spec fn wf(self) -> bool {
        &&& self.adj.len() == self.names.len()
        &&& self.names.no_duplicates()
        &&& forall|a: int| 0 <= a < self.adj.len() ==> (#[trigger] self.adj[a]).no_duplicates()
        &&& forall|a: int, k: int|
            0 <= a < self.adj.len() && 0 <= k < self.adj[a].len() ==> 0 <= #[trigger] self.adj[a][k]
                < self.adj.len()
        &&& forall|a: int, b: int|
            0 <= a < self.adj.len() && 0 <= b < self.adj.len() ==> (#[trigger] self.is_neighbor(a, b)
                <==> self.is_neighbor(b, a))
    }

    /// The graph with the node `name` appended if it is not there yet.
    pub open spec fn with_node(self, name: Seq<char>) -> GraphView {
        if self.has_node(name) {
            self
        } else {
            GraphView { names: self.names.push(name), adj: self.adj.push(Seq::empty()) }
        }
    }

    /// The graph with `b` appended to the neighbours of `a`, unless it is
    /// already there.
    pub open spec fn with_neighbor(self, a: int, b: int) -> GraphView {
        if self.is_neighbor(a, b) {
            self
        } else {
            GraphView { names: self.names, adj: self.adj.update(a, self.adj[a].push(b)) }
        }
    }

    /// What adding the undirected edge `u`–`v` does: both labels are
    /// interned (`u` first), then each end is appended to the other's
    /// neighbours unless already present.
    pub open spec fn add_edge(self, u: Seq<char>, v: Seq<char>) -> GraphView {
        let g = self.with_node(u).with_node(v);
        let uid = g.id_of(u);
        let vid = g.id_of(v);
        g.with_neighbor(uid, vid).with_neighbor(vid, uid)
    }
}

/// In a sequence without duplicates, `index_of` finds the one position.
proof fn lemma_index_of_unique(s: Seq<Seq<char>>, i: int)
    requires
        s.no_duplicates(),
        0 <= i < s.len(),
    ensures
        s.index_of(s[i]) == i,
{
    assert(s.contains(s[i]));
    let j = s.index_of(s[i]);
    assert(0 <= j < s.len() && s[j] == s[i]);
}

/// A label that occurs has its id in range, pointing back at it.
proof fn lemma_id_of_contains(g: GraphView, name: Seq<char>)
    requires
        g.names.contains(name),
    ensures
        0 <= g.id_of(name) < g.names.len(),
        g.names[g.id_of(name)] == name,
{
}

/// Interning a label keeps a graph well-formed, keeps every existing id,
/// and gives the label an id.
proof fn lemma_with_node(g: GraphView, name: Seq<char>)
    requires
        g.wf(),
    ensures
        g.with_node(name).wf(),
        g.with_node(name).has_node(name),
        forall|i: int| 0 <= i < g.names.len() ==> #[trigger] g.with_node(name).names[i] == g.names[i],
        forall|i: int| 0 <= i < g.adj.len() ==> #[trigger] g.with_node(name).adj[i] == g.adj[i],
        g.with_node(name).names.len() == g.names.len() + (if g.has_node(name) { 0int } else { 1int }),
{
    let h = g.with_node(name);
    if !g.has_node(name) {
        let n = g.names.len() as int;
        assert(h.names[n] == name);
        assert(h.has_node(name));
        assert forall|i: int, j: int|
            0 <= i < h.names.len() && 0 <= j < h.names.len() && i != j implies h.names[i]
            != h.names[j] by {
            if i == n && j < n {
                assert(g.names.contains(g.names[j]));
            } else if j == n && i < n {
                assert(g.names.contains(g.names[i]));
            }
        }
        assert forall|a: int, b: int|
            0 <= a < h.adj.len() && 0 <= b < h.adj.len() implies (#[trigger] h.is_neighbor(a, b)
            <==> h.is_neighbor(b, a)) by {
            if a == n {
                assert(h.adj[a] =~= Seq::<int>::empty());
                if h.is_neighbor(b, a) {
                    let k = choose|k: int| 0 <= k < h.adj[b].len() && h.adj[b][k] == a;
                    assert(g.adj[b][k] < g.adj.len());
                }
            } else if b == n {
                assert(h.adj[b] =~= Seq::<int>::empty());
                if h.is_neighbor(a, b) {
                    let k = choose|k: int| 0 <= k < h.adj[a].len() && h.adj[a][k] == b;
                    assert(g.adj[a][k] < g.adj.len());
                }
            } else {
                assert(g.is_neighbor(a, b) <==> g.is_neighbor(b, a));
            }
        }
    } else {
        assert(h == g);
    }
}

/// Appending `b` to the neighbours of `a` (unless present) changes only
/// row `a`, by at most that one entry at its end.
proof fn lemma_with_neighbor(g: GraphView, a: int, b: int)
    requires
        0 <= a < g.adj.len(),
    ensures
        g.with_neighbor(a, b).names == g.names,
        g.with_neighbor(a, b).adj.len() == g.adj.len(),
        g.with_neighbor(a, b).is_neighbor(a, b),
        forall|x: int, y: int|
            0 <= x < g.adj.len() ==> (#[trigger] g.with_neighbor(a, b).is_neighbor(x, y) <==> (
            g.is_neighbor(x, y) || (x == a && y == b))),
        forall|x: int|
            0 <= x < g.adj.len() && x != a ==> #[trigger] g.with_neighbor(a, b).adj[x] == g.adj[x],
        g.with_neighbor(a, b).adj[a] == (if g.is_neighbor(a, b) {
            g.adj[a]
        } else {
            g.adj[a].push(b)
        }),
{
    let h = g.with_neighbor(a, b);
    if !g.is_neighbor(a, b) {
        assert(h.adj[a][g.adj[a].len() as int] == b);
        assert forall|x: int, y: int| 0 <= x < g.adj.len() implies (#[trigger] h.is_neighbor(x, y)
            <==> (g.is_neighbor(x, y) || (x == a && y == b))) by {
            if x == a {
                if g.is_neighbor(x, y) {
                    let k = choose|k: int| 0 <= k < g.adj[a].len() && g.adj[a][k] == y;
                    assert(h.adj[a][k] == y);
                }
                if h.is_neighbor(x, y) && y != b {
                    let k = choose|k: int| 0 <= k < h.adj[a].len() && h.adj[a][k] == y;
                    assert(g.adj[a][k] == y);
                }
            }
        }
    }
}

/// Linking two existing nodes both ways keeps a graph well-formed and adds
/// exactly the pair `x`–`y` to the neighbour relation.
proof fn lemma_link(g: GraphView, x: int, y: int)
    requires
        g.wf(),
        0 <= x < g.adj.len(),
        0 <= y < g.adj.len(),
    ensures
        g.with_neighbor(x, y).with_neighbor(y, x).wf(),
        g.with_neighbor(x, y).with_neighbor(y, x).names == g.names,
        forall|a: int, b: int|
            0 <= a < g.adj.len() ==> (#[trigger] g.with_neighbor(x, y).with_neighbor(
                y,
                x,
            ).is_neighbor(a, b) <==> (g.is_neighbor(a, b) || (a == x && b == y) || (a == y && b
                == x))),
        forall|a: int|
            0 <= a < g.adj.len() ==> g.adj[a].is_prefix_of(
                #[trigger] g.with_neighbor(x, y).with_neighbor(y, x).adj[a],
            ),
{
    let g1 = g.with_neighbor(x, y);
    let h = g1.with_neighbor(y, x);
    lemma_with_neighbor(g, x, y);
    lemma_with_neighbor(g1, y, x);
    let n = g.adj.len() as int;
    assert forall|a: int| 0 <= a < n implies g.adj[a].is_prefix_of(#[trigger] h.adj[a]) by {
        assert(g.adj[a].is_prefix_of(g1.adj[a]));
        assert(g1.adj[a].is_prefix_of(h.adj[a]));
    }
    assert forall|a: int| 0 <= a < n implies (#[trigger] h.adj[a]).no_duplicates() by {
        assert(g.adj[a].no_duplicates());
        assert(g1.adj[a].no_duplicates()) by {
            if a == x && !g.is_neighbor(x, y) {
                assert forall|i: int, j: int|
                    0 <= i < g1.adj[a].len() && 0 <= j < g1.adj[a].len() && i != j implies g1.adj[a][i]
                    != g1.adj[a][j] by {
                    let m = g.adj[a].len() as int;
                    if i == m {
                        assert(g.adj[a][j] == g1.adj[a][j]);
                    } else if j == m {
                        assert(g.adj[a][i] == g1.adj[a][i]);
                    }
                }
            }
        }
        if a == y && !g1.is_neighbor(y, x) {
            assert forall|i: int, j: int|
                0 <= i < h.adj[a].len() && 0 <= j < h.adj[a].len() && i != j implies h.adj[a][i]
                != h.adj[a][j] by {
                let m = g1.adj[a].len() as int;
                if i == m {
                    assert(g1.adj[a][j] == h.adj[a][j]);
                } else if j == m {
                    assert(g1.adj[a][i] == h.adj[a][i]);
                }
            }
        }
    }
    assert forall|a: int, k: int| 0 <= a < n && 0 <= k < h.adj[a].len() implies 0 <= #[trigger] h.adj[a][k]
        < n by {
        assert(h.is_neighbor(a, h.adj[a][k]));
        if k < g.adj[a].len() {
            assert(h.adj[a][k] == g.adj[a][k]);
        }
    }
    assert forall|a: int, b: int| 0 <= a < n && 0 <= b < n implies (#[trigger] h.is_neighbor(a, b)
        <==> h.is_neighbor(b, a)) by {
        assert(g.is_neighbor(a, b) <==> g.is_neighbor(b, a));
    }
}

/// When one list of labels extends another and has no duplicates, every
/// label of the shorter list keeps its id.
proof fn lemma_ids_stable(g: GraphView, h: GraphView)
    requires
        h.names.no_duplicates(),
        g.names.is_prefix_of(h.names),
    ensures
        forall|x: Seq<char>| #[trigger] g.has_node(x) ==> h.has_node(x) && h.id_of(x) == g.id_of(x),
{
    assert forall|x: Seq<char>| #[trigger] g.has_node(x) implies h.has_node(x) && h.id_of(x)
        == g.id_of(x) by {
        let i = g.id_of(x);
        assert(h.names[i] == x);
        lemma_index_of_unique(h.names, i);
    }
}

/// Adding an edge to a well-formed graph: the result is well-formed; the
/// existing nodes keep their ids and every neighbour list keeps its order,
/// new entries only being appended; and the edges are exactly the old ones
/// plus `u`–`v` (in both directions).
pub proof fn lemma_add_edge(g: GraphView, u: Seq<char>, v: Seq<char>)
    requires
        g.wf(),
    ensures
        g.add_edge(u, v).wf(),
        g.add_edge(u, v).has_edge(u, v),
        g.add_edge(u, v).has_edge(v, u),
        g.names.is_prefix_of(g.add_edge(u, v).names),
        forall|a: int| 0 <= a < g.adj.len() ==> g.adj[a].is_prefix_of(#[trigger] g.add_edge(u, v).adj[a]),
        forall|x: Seq<char>| #[trigger] g.has_node(x) ==> g.add_edge(u, v).id_of(x) == g.id_of(x),
        forall|x: Seq<char>|
            #[trigger] g.add_edge(u, v).has_node(x) <==> (g.has_node(x) || x == u || x == v),
        forall|x: Seq<char>, y: Seq<char>|
            #[trigger] g.add_edge(u, v).has_edge(x, y) <==> (g.has_edge(x, y) || (x == u && y == v)
                || (x == v && y == u)),
{
    let g1 = g.with_node(u);
    let g2 = g1.with_node(v);
    lemma_with_node(g, u);
    lemma_with_node(g1, v);
    let uid = g2.id_of(u);
    let vid = g2.id_of(v);
    assert(g2.has_node(u)) by {
        lemma_id_of_contains(g1, u);
        assert(g2.names[g1.id_of(u)] == u);
    }
    lemma_id_of_contains(g2, u);
    lemma_id_of_contains(g2, v);
    lemma_link(g2, uid, vid);
    let h = g.add_edge(u, v);
    assert(h == g2.with_neighbor(uid, vid).with_neighbor(vid, uid));
    assert(g.names.is_prefix_of(g1.names));
    assert(g1.names.is_prefix_of(g2.names));
    assert(g.names.is_prefix_of(h.names));
    assert forall|a: int| 0 <= a < g.adj.len() implies g.adj[a].is_prefix_of(#[trigger] h.adj[a]) by {
        assert(g2.adj[a] == g.adj[a]);
    }
    lemma_ids_stable(g, h);
    lemma_ids_stable(g2, h);
    assert forall|x: Seq<char>| #[trigger] h.has_node(x) <==> (g.has_node(x) || x == u || x == v) by {
        assert(h.names == g2.names);
        if g2.has_node(x) && !g.has_node(x) {
            let i = g2.id_of(x);
            lemma_id_of_contains(g2, x);
            if i < g.names.len() {
                assert(g.names[i] == x);
            }
        }
        if g.has_node(x) {
            assert(g2.has_node(x));
        }
    }
    assert forall|x: Seq<char>, y: Seq<char>| #[trigger] h.has_edge(x, y) <==> (g.has_edge(x, y) || (x
        == u && y == v) || (x == v && y == u)) by {
        if h.has_node(x) && h.has_node(y) {
            lemma_id_of_contains(h, x);
            lemma_id_of_contains(h, y);
            let ix = h.id_of(x);
            let iy = h.id_of(y);
            assert(h.is_neighbor(ix, iy) <==> (g2.is_neighbor(ix, iy) || (ix == uid && iy == vid) || (
            ix == vid && iy == uid)));
            if ix == uid {
                assert(x == u);
            }
            if ix == vid {
                assert(x == v);
            }
            if iy == uid {
                assert(y == u);
            }
            if iy == vid {
                assert(y == v);
            }
            if g.has_node(x) && g.has_node(y) {
                assert(g2.adj[ix] == g.adj[ix]);
            } else if g2.is_neighbor(ix, iy) {
                // a node new to this call has no neighbours before the linking
                if !g.has_node(x) {
                    assert(ix >= g.adj.len()) by {
                        if ix < g.adj.len() {
                            assert(g.names[ix] == x);
                        }
                    }
                    assert(g2.adj[ix].len() == 0);
                } else {
                    assert(iy >= g.adj.len()) by {
                        if iy < g.adj.len() {
                            assert(g.names[iy] == y);
                        }
                    }
                    assert(g2.is_neighbor(iy, ix));
                    assert(g2.adj[iy].len() == 0);
                }
            }
        }
    }
}

/// An edge that is already present (in either direction, a self-loop
/// included) is not added again: the graph stays exactly as it was.
pub proof fn lemma_add_existing_edge(g: GraphView, u: Seq<char>, v: Seq<char>)
    requires
        g.wf(),
        g.has_edge(u, v),
    ensures
        g.add_edge(u, v) == g,
        g.add_edge(v, u) == g,
{
    lemma_id_of_contains(g, u);
    lemma_id_of_contains(g, v);
    let uid = g.id_of(u);
    let vid = g.id_of(v);
    assert(g.with_node(u) == g);
    assert(g.with_node(v) == g);
    assert(g.is_neighbor(vid, uid));
    assert(g.with_neighbor(uid, vid) == g);
    assert(g.with_neighbor(vid, uid) == g);
}

/// Adding the same undirected edge again, in either direction, changes
/// nothing: parallel edges and repeated self-loops collapse into one.
pub proof fn lemma_add_edge_idempotent(g: GraphView, u: Seq<char>, v: Seq<char>)
    requires
        g.wf(),
    ensures
        g.add_edge(u, v).add_edge(u, v) == g.add_edge(u, v),
        g.add_edge(u, v).add_edge(v, u) == g.add_edge(u, v),
{
    lemma_add_edge(g, u, v);
    lemma_add_existing_edge(g.add_edge(u, v), u, v);
}

/// The labels that a list of edges names, in order: `u` then `v` for each
/// edge `(u, v)`.
pub open spec fn endpoints(edges: Seq<(Seq<char>, Seq<char>)>) -> Seq<Seq<char>>
    decreases edges.len(),
{
    if edges.len() == 0 {
        Seq::empty()
    } else {
        endpoints(edges.drop_last()).push(edges.last().0).push(edges.last().1)
    }
}

/// `names` followed by each label of `labels` that is not among the labels
/// before it, in order of first appearance.
pub open spec fn first_appearances(names: Seq<Seq<char>>, labels: Seq<Seq<char>>) -> Seq<Seq<char>>
    decreases labels.len(),
{
    if labels.len() == 0 {
        names
    } else {
        let d = first_appearances(names, labels.drop_last());
        if d.contains(labels.last()) {
            d
        } else {
            d.push(labels.last())
        }
    }
}

/// `g` with the edges added in order.
pub open spec fn add_edges(g: GraphView, edges: Seq<(Seq<char>, Seq<char>)>) -> GraphView
    decreases edges.len(),
{
    if edges.len() == 0 {
        g
    } else {
        add_edges(g, edges.drop_last()).add_edge(edges.last().0, edges.last().1)
    }
}

/// Adding edges one after another lists the node labels in order of first
/// appearance: each new label of the edges (`u` before `v` within an edge)
/// is appended once, after the labels already there.
pub proof fn lemma_add_edges_names(g: GraphView, edges: Seq<(Seq<char>, Seq<char>)>)
    ensures
        add_edges(g, edges).names == first_appearances(g.names, endpoints(edges)),
    decreases edges.len(),
{
    if edges.len() > 0 {
        let init = edges.drop_last();
        let (u, v) = edges.last();
        lemma_add_edges_names(g, init);
        let e0 = endpoints(init);
        let e1 = e0.push(u);
        let e2 = e1.push(v);
        assert(e2.drop_last() =~= e1);
        assert(e1.drop_last() =~= e0);
        assert(endpoints(edges) == e2);
        assert(e1.last() == u);
        assert(e2.last() == v);
        let f0 = first_appearances(g.names, e0);
        let f1 = first_appearances(g.names, e1);
        assert(f1 == (if f0.contains(u) { f0 } else { f0.push(u) }));
        assert(first_appearances(g.names, e2) == (if f1.contains(v) { f1 } else { f1.push(v) }));
        let h = add_edges(g, init);
        assert(add_edges(g, edges) == h.add_edge(u, v));
        let h2 = h.with_node(u).with_node(v);
        let uid = h2.id_of(u);
        let vid = h2.id_of(v);
        assert(h2.with_neighbor(uid, vid).names == h2.names);
        assert(h2.with_neighbor(uid, vid).with_neighbor(vid, uid).names == h2.names);
    }
}

/// The labels in order of first appearance, after a list without
/// duplicates, have no duplicates, keep that list as a prefix, and hold
/// exactly the labels of both.
pub proof fn lemma_first_appearances(names: Seq<Seq<char>>, labels: Seq<Seq<char>>)
    requires
        names.no_duplicates(),
    ensures
        first_appearances(names, labels).no_duplicates(),
        names.is_prefix_of(first_appearances(names, labels)),
        forall|x: Seq<char>|
            #[trigger] first_appearances(names, labels).contains(x) <==> (names.contains(x)
                || labels.contains(x)),
    decreases labels.len(),
{
    if labels.len() > 0 {
        let init = labels.drop_last();
        let x = labels.last();
        lemma_first_appearances(names, init);
        let d = first_appearances(names, init);
        if !d.contains(x) {
            let r = d.push(x);
            assert forall|i: int, j: int| 0 <= i < r.len() && 0 <= j < r.len() && i != j implies r[i]
                != r[j] by {
                if i == d.len() && j < d.len() {
                    assert(d.contains(d[j]));
                } else if j == d.len() && i < d.len() {
                    assert(d.contains(d[i]));
                }
            }
            assert forall|y: Seq<char>| #[trigger] r.contains(y) implies d.contains(y) || y == x by {
                let k = choose|k: int| 0 <= k < r.len() && r[k] == y;
                if k < d.len() {
                    assert(d[k] == y);
                }
            }
            assert forall|y: Seq<char>| #[trigger] d.contains(y) implies r.contains(y) by {
                let k = choose|k: int| 0 <= k < d.len() && d[k] == y;
                assert(r[k] == y);
            }
            assert(r[d.len() as int] == x);
        }
        assert forall|y: Seq<char>| #[trigger] labels.contains(y) <==> (init.contains(y) || y == x) by {
            if labels.contains(y) {
                let k = choose|k: int| 0 <= k < labels.len() && labels[k] == y;
                if k < init.len() {
                    assert(init[k] == y);
                }
            }
            if init.contains(y) {
                let k = choose|k: int| 0 <= k < init.len() && init[k] == y;
                assert(labels[k] == y);
            }
            assert(labels[labels.len() - 1] == x);
        }
        let r = first_appearances(names, labels);
        assert forall|y: Seq<char>| #[trigger] r.contains(y) <==> (names.contains(y) || labels.contains(
            y,
        )) by {
            assert(labels.contains(y) <==> (init.contains(y) || y == x));
            assert(d.contains(y) <==> (names.contains(y) || init.contains(y)));
        }
    }
}

/// The storage of a [`Graph`]: labels, the index from label to id, and the
/// neighbour lists.
struct Adjacency {
    node_ids: StringHashMap<usize>,
    nodes: Vec<String>,
    /// `adj[u]` = neighbour ids in insertion order, without repetition.
    adj: Vec<Vec<usize>>,
}

impl View for Adjacency {
    type V = GraphView;

    closed spec fn view(&self) -> GraphView {
        GraphView {
            names: self.nodes@.map_values(|s: String| s@),
            adj: self.adj@.map_values(|row: Vec<usize>| row@.map_values(|x: usize| x as int)),
        }
    }
}

/// Whether `x` occurs in `row`.
fn row_contains(row: &Vec<usize>, x: usize) -> (found: bool)
    ensures
        found == row@.map_values(|y: usize| y as int).contains(x as int),
{
    let ghost ints = row@.map_values(|y: usize| y as int);
    let mut i: usize = 0;
    while i < row.len()
        invariant
            i <= row@.len(),
            ints == row@.map_values(|y: usize| y as int),
            forall|k: int| 0 <= k < i ==> ints[k] != x as int,
        decreases row@.len() - i,
    {
        if row[i] == x {
            assert(ints[i as int] == x as int);
            return true;
        }
        i = i + 1;
    }
    false
}

impl Adjacency {
    /// The label index maps each node's label to its id, and knows no
    /// other label.
    closed spec fn index_agrees(&self) -> bool {
        &&& forall|i: int|
            #![trigger self.nodes@[i]]
            0 <= i < self.nodes@.len() ==> self.node_ids@.contains_key(self.nodes@[i]@)
                && self.node_ids@[self.nodes@[i]@] == i
        &&& forall|k: Seq<char>| #[trigger] self.node_ids@.contains_key(k) ==> self@.has_node(k)
    }

    /// Valid storage: its view is well-formed and the label index agrees
    /// with the node list.
    closed spec fn wf(&self) -> bool {
        &&& self@.wf()
        &&& self.index_agrees()
    }

    /// The empty graph.
    fn new() -> (g: Adjacency)
        ensures
            g.wf(),
            g@ == GraphView::empty(),
    {
        let g = Adjacency { node_ids: StringHashMap::new(), nodes: Vec::new(), adj: Vec::new() };
        assert(g@.names =~= Seq::<Seq<char>>::empty());
        assert(g@.adj =~= Seq::<Seq<int>>::empty());
        g
    }

    /// The id of `name`, adding it as a new node (with no neighbours) if it
    /// is not there yet.
    fn intern(&mut self, name: &str) -> (id: usize)
        requires
            old(self).wf(),
        ensures
            final(self).wf(),
            final(self)@ == old(self)@.with_node(name@),
            id as int == final(self)@.id_of(name@),
            id < final(self)@.node_count(),
    {
        let ghost g = self@;
        match self.node_ids.get(name) {
            Some(id) => {
                let id = *id;
                proof {
                    assert(g.has_node(name@));
                    let j = g.id_of(name@);
                    lemma_id_of_contains(g, name@);
                    assert(self.nodes@[j]@ == g.names[j]);
                    assert(self.node_ids@[self.nodes@[j]@] == j);
                    assert(g.with_node(name@) == g);
                }
                return id;
            },
            None => {},
        }
        proof {
            if g.has_node(name@) {
                let j = g.id_of(name@);
                lemma_id_of_contains(g, name@);
                assert(self.nodes@[j]@ == g.names[j]);
            }
        }
        let id = self.nodes.len();
        self.nodes.push(name.to_owned());
        self.node_ids.insert(name.to_owned(), id);
        self.adj.push(Vec::new());
        proof {
            let h = g.with_node(name@);
            lemma_with_node(g, name@);
            assert(self@.names =~= h.names);
            assert(self@.adj[id as int] =~= Seq::<int>::empty());
            assert(self@.adj =~= h.adj);
            assert(self@ == h);
            lemma_index_of_unique(h.names, id as int);
            assert forall|i: int|
                #![trigger self.nodes@[i]]
                0 <= i < self.nodes@.len() implies self.node_ids@.contains_key(self.nodes@[i]@)
                && self.node_ids@[self.nodes@[i]@] == i by {
                if i < id {
                    assert(g.names[i] == self.nodes@[i]@);
                    assert(self.nodes@[i]@ != name@);
                }
            }
            assert forall|k: Seq<char>| #[trigger] self.node_ids@.contains_key(k) implies self@.has_node(
                k,
            ) by {
                if k != name@ {
                    assert(old(self).node_ids@.contains_key(k));
                    let j = g.id_of(k);
                    lemma_id_of_contains(g, k);
                    assert(self@.names[j] == k);
                } else {
                    assert(self@.names[id as int] == k);
                }
            }
        }
        id
    }

    /// Adds the undirected edge `u`–`v`, interning both labels (`u` first).
    /// A parallel edge is not stored twice; a self-loop (`u == v`) makes the
    /// node its own neighbour, once.
    fn add_edge(&mut self, u: &str, v: &str)
        requires
            old(self).wf(),
        ensures
            final(self).wf(),
            final(self)@ == old(self)@.add_edge(u@, v@),
    {
        let ghost g = self@;
        let uid = self.intern(u);
        let ghost g1 = self@;
        let vid = self.intern(v);
        let ghost g2 = self@;
        proof {
            lemma_with_node(g1, v@);
            assert(g1.names.is_prefix_of(g2.names));
            lemma_ids_stable(g1, g2);
            lemma_with_node(g, u@);
        }
        if !row_contains(&self.adj[uid], vid) {
            self.adj[uid].push(vid);
        }
        let ghost g3 = self@;
        proof {
            let w = g2.with_neighbor(uid as int, vid as int);
            assert(g3.names == w.names);
            if !g2.is_neighbor(uid as int, vid as int) {
                assert(g3.adj[uid as int] =~= w.adj[uid as int]);
            }
            assert(g3.adj =~= w.adj);
            assert(g3 == w);
        }
        if !row_contains(&self.adj[vid], uid) {
            self.adj[vid].push(uid);
        }
        proof {
            let w = g3.with_neighbor(vid as int, uid as int);
            if !g3.is_neighbor(vid as int, uid as int) {
                assert(self@.adj[vid as int] =~= w.adj[vid as int]);
            }
            assert(self@.adj =~= w.adj);
            assert(self@ == w);
            lemma_add_edge(g, u@, v@);
        }
    }
}

/// Adjacency list preserving node and neighbour insertion order, read as an
/// undirected simple graph with self-loops: a repeated edge is stored once.
pub struct Graph {
    parts: Adjacency,
}

impl View for Graph {
    type V = GraphView;

    closed spec fn view(&self) -> GraphView {
        self.parts@
    }
}

impl Graph {
    /// Every graph's storage is valid.
    #[verifier::type_invariant]
    closed spec fn valid(self) -> bool {
        self.parts.wf()
    }

    /// The empty graph.
    pub fn new() -> (g: Graph)
        ensures
            g@ == GraphView::empty(),
            g@.wf(),
    {
        Graph { parts: Adjacency::new() }
    }

    /// Adds the undirected edge `u`–`v`, interning both labels (`u` first).
    /// A parallel edge is not stored twice; a self-loop (`u == v`) makes the
    /// node its own neighbour, once.
    pub fn add_edge(&mut self, u: &str, v: &str)
        ensures
            final(self)@ == old(self)@.add_edge(u@, v@),
            final(self)@.wf(),
    {
        proof {
            use_type_invariant(&*self);
        }
        // Work on the storage out of place, so that the graph stays valid
        // (empty) should an allocation fail half-way.
        let mut parts = Adjacency::new();
        std::mem::swap(&mut self.parts, &mut parts);
        parts.add_edge(u, v);
        self.parts = parts;
    }

    /// The number of nodes.
    pub fn node_count(&self) -> (n: usize)
        ensures
            n == self@.node_count(),
    {
        self.parts.nodes.len()
    }

    /// The node labels, indexed by node id.
    pub fn node_names(&self) -> (names: &[String])
        ensures
            names@.map_values(|s: String| s@) == self@.names,
    {
        self.parts.nodes.as_slice()
    }

    /// The neighbour ids of `node`, in the order in which they were added.
    pub fn neighbors(&self, node: usize) -> (nbrs: &[usize])
        requires
            node < self@.node_count(),
        ensures
            nbrs@.map_values(|x: usize| x as int) == self@.adj[node as int],
    {
        proof {
            use_type_invariant(self);
        }
        self.parts.adj[node].as_slice()
    }
}

/// `a` comes before `b` in `str` order: by Unicode scalar value,
/// character by character, a proper prefix first.
pub open spec fn label_lt(a: Seq<char>, b: Seq<char>) -> bool
    decreases a.len(),
{
    if a.len() == 0 {
        b.len() > 0
    } else if b.len() == 0 {
        false
    } else if a[0] != b[0] {
        (a[0] as int) < (b[0] as int)
    } else {
        label_lt(a.drop_first(), b.drop_first())
    }
}

/// Label order is a strict total order: irreflexive, asymmetric, total on
/// distinct labels.
pub proof fn lemma_label_lt_total(a: Seq<char>, b: Seq<char>)
    ensures
        !label_lt(a, a),
        label_lt(a, b) ==> !label_lt(b, a),
        a != b ==> label_lt(a, b) || label_lt(b, a),
    decreases a.len(),
{
    if a.len() > 0 {
        lemma_label_lt_total(a.drop_first(), a.drop_first());
        if b.len() > 0 {
            lemma_label_lt_total(a.drop_first(), b.drop_first());
            if a[0] == b[0] && a != b {
                assert(a.drop_first() != b.drop_first()) by {
                    if a.drop_first() == b.drop_first() {
                        assert(a =~= b) by {
                            assert forall|i: int| 0 <= i < a.len() implies a[i] == b[i] by {
                                if i > 0 {
                                    assert(a[i] == a.drop_first()[i - 1]);
                                    assert(b[i] == b.drop_first()[i - 1]);
                                }
                            }
                        }
                    }
                }
            }
        }
    } else {
        if b.len() == 0 {
            assert(a =~= b);
        }
    }
}

/// Label order is transitive.
pub proof fn lemma_label_lt_trans(a: Seq<char>, b: Seq<char>, c: Seq<char>)
    requires
        label_lt(a, b),
        label_lt(b, c),
    ensures
        label_lt(a, c),
    decreases a.len(),
{
    if a.len() > 0 && b.len() > 0 && c.len() > 0 && a[0] == b[0] && b[0] == c[0] {
        lemma_label_lt_trans(a.drop_first(), b.drop_first(), c.drop_first());
    }
}

/// Label order is lexicographic by character value: for labels that agree
/// before position `k` and differ at `k`, the one with the smaller
/// character at `k` comes first.
pub proof fn lemma_label_lt_first_difference(a: Seq<char>, b: Seq<char>, k: int)
    requires
        0 <= k < a.len(),
        k < b.len(),
        a.take(k) == b.take(k),
        a[k] != b[k],
    ensures
        label_lt(a, b) <==> (a[k] as int) < (b[k] as int),
    decreases k,
{
    if k > 0 {
        assert(a[0] == a.take(k)[0]);
        assert(b[0] == b.take(k)[0]);
        let a1 = a.drop_first();
        let b1 = b.drop_first();
        assert(a1.take(k - 1) =~= a.take(k).drop_first());
        assert(b1.take(k - 1) =~= b.take(k).drop_first());
        assert(a1[k - 1] == a[k]);
        assert(b1[k - 1] == b[k]);
        lemma_label_lt_first_difference(a1, b1, k - 1);
    }
}

/// A label comes before every longer label that starts with it.
pub proof fn lemma_label_lt_prefix(a: Seq<char>, b: Seq<char>)
    requires
        a.len() < b.len(),
        b.take(a.len() as int) == a,
    ensures
        label_lt(a, b),
        !label_lt(b, a),
    decreases a.len(),
{
    lemma_label_lt_total(a, b);
    if a.len() > 0 {
        assert(a[0] == b.take(a.len() as int)[0]);
        let a1 = a.drop_first();
        let b1 = b.drop_first();
        assert(b1.take(a1.len() as int) =~= a1) by {
            assert forall|i: int| 0 <= i < a1.len() implies b1[i] == a1[i] by {
                assert(b.take(a.len() as int)[i + 1] == a[i + 1]);
            }
        }
        lemma_label_lt_prefix(a1, b1);
    }
}

/// The characters of a label, in order.
fn label_chars(s: &str) -> (chars: Vec<char>)
    ensures
        chars@ == s@,
{
    let mut chars: Vec<char> = Vec::new();
    proof {
        assert(s@.take(0) =~= Seq::<char>::empty());
    }
    for c in it: s.chars()
        invariant
            it.seq() == s@,
            chars@ == s@.take(it.index() as int),
    {
        chars.push(c);
        proof {
            assert(s@.take(it.index() + 1) =~= s@.take(it.index() as int).push(c));
        }
    }
    proof {
        assert(s@.take(s@.len() as int) =~= s@);
    }
    chars
}

/// Whether `a` comes before `b` in label order.
fn chars_lt(a: &Vec<char>, b: &Vec<char>) -> (lt: bool)
    ensures
        lt == label_lt(a@, b@),
{
    let mut k: usize = 0;
    proof {
        assert(a@.skip(0) =~= a@);
        assert(b@.skip(0) =~= b@);
    }
    while k < a.len() && k < b.len() && a[k] == b[k]
        invariant
            k <= a@.len(),
            k <= b@.len(),
            label_lt(a@, b@) == label_lt(a@.skip(k as int), b@.skip(k as int)),
        decreases a@.len() - k,
    {
        proof {
            let x = a@.skip(k as int);
            let y = b@.skip(k as int);
            assert(x[0] == a@[k as int]);
            assert(y[0] == b@[k as int]);
            assert(x.drop_first() =~= a@.skip(k + 1));
            assert(y.drop_first() =~= b@.skip(k + 1));
        }
        k = k + 1;
    }
    let ghost x = a@.skip(k as int);
    let ghost y = b@.skip(k as int);
    if k == a.len() {
        k < b.len()
    } else if k == b.len() {
        false
    } else {
        proof {
            assert(x[0] == a@[k as int]);
            assert(y[0] == b@[k as int]);
        }
        a[k] < b[k]
    }
}

/// Where a label goes among ids already in label order: after every
/// smaller label, before every larger one.
fn insertion_point(keys: &Vec<Vec<char>>, order: &Vec<usize>, new: usize, Ghost(labels): Ghost<
    Seq<Seq<char>>,
>) -> (pos: usize)
    requires
        new < keys@.len(),
        keys@.len() == labels.len(),
        labels.no_duplicates(),
        forall|j: int| 0 <= j < keys@.len() ==> #[trigger] keys@[j]@ == labels[j],
        forall|k: int| 0 <= k < order@.len() ==> #[trigger] order@[k] < keys@.len() && order@[k] != new,
    ensures
        pos <= order@.len(),
        forall|q: int| 0 <= q < pos ==> label_lt(labels[#[trigger] order@[q] as int], labels[new as int]),
        pos < order@.len() ==> label_lt(labels[new as int], labels[order@[pos as int] as int]),
{
    let mut pos: usize = 0;
    let mut found = false;
    while !found && pos < order.len()
        invariant
            new < keys@.len(),
            keys@.len() == labels.len(),
            labels.no_duplicates(),
            forall|j: int| 0 <= j < keys@.len() ==> #[trigger] keys@[j]@ == labels[j],
            forall|k: int| 0 <= k < order@.len() ==> #[trigger] order@[k] < keys@.len() && order@[k] != new,
            pos <= order@.len(),
            forall|q: int| 0 <= q < pos ==> label_lt(labels[#[trigger] order@[q] as int], labels[new as int]),
            found ==> pos < order@.len() && label_lt(labels[new as int], labels[order@[pos as int] as int]),
        decreases order@.len() - pos, (if found { 0int } else { 1int }),
    {
        let other = order[pos];
        if chars_lt(&keys[new], &keys[other]) {
            found = true;
        } else {
            proof {
                assert(keys@[other as int]@ == labels[other as int]);
                assert(keys@[new as int]@ == labels[new as int]);
                assert(labels[new as int] != labels[other as int]);
                lemma_label_lt_total(labels[new as int], labels[other as int]);
            }
            pos = pos + 1;
        }
    }
    pos
}

/// The node ids in label order: the order in which the report lists nodes.
pub fn ids_by_label(g: &Graph) -> (order: Vec<usize>)
    ensures
        order@.len() == g@.node_count(),
        order@.no_duplicates(),
        forall|k: int| 0 <= k < order@.len() ==> order@[k] < g@.node_count(),
        forall|k: int|
            0 <= k < order@.len() - 1 ==> label_lt(
                g@.names[#[trigger] order@[k] as int],
                g@.names[order@[k + 1] as int],
            ),
{
    proof {
        use_type_invariant(g);
    }
    let ghost labels = g@.names;
    let names = g.node_names();
    let n = names.len();
    let mut keys: Vec<Vec<char>> = Vec::new();
    for i in 0..n
        invariant
            n == labels.len(),
            names@.map_values(|s: String| s@) == labels,
            keys@.len() == i,
            forall|j: int| 0 <= j < i ==> #[trigger] keys@[j]@ == labels[j],
    {
        let key = label_chars(names[i].as_str());
        proof {
            assert(names@[i as int]@ == labels[i as int]);
        }
        keys.push(key);
    }
    let mut order: Vec<usize> = Vec::new();
    for i in 0..n
        invariant
            n == labels.len(),
            labels.no_duplicates(),
            keys@.len() == n,
            forall|j: int| 0 <= j < n ==> #[trigger] keys@[j]@ == labels[j],
            order@.len() == i,
            order@.no_duplicates(),
            forall|k: int| 0 <= k < order@.len() ==> #[trigger] order@[k] < i,
            forall|p: int, q: int|
                0 <= p < q < order@.len() ==> label_lt(
                    labels[#[trigger] order@[p] as int],
                    labels[#[trigger] order@[q] as int],
                ),
    {
        let pos = insertion_point(&keys, &order, i, Ghost(labels));
        let ghost before = order@;
        order.insert(pos, i);
        proof {
            let after = order@;
            assert(forall|k: int| 0 <= k < pos ==> after[k] == before[k]);
            assert(after[pos as int] == i);
            assert(forall|k: int| pos < k < after.len() ==> after[k] == before[k - 1]);
            assert forall|k: int| 0 <= k < after.len() implies #[trigger] after[k] < i + 1 by {
                if k < pos {
                    assert(after[k] == before[k]);
                } else if k > pos {
                    assert(after[k] == before[k - 1]);
                }
            }
            assert forall|p: int, q: int| 0 <= p < q < after.len() implies after[p] != after[q] by {
                if p != pos && q != pos {
                    let bp = if p < pos { p } else { p - 1 };
                    let bq = if q < pos { q } else { q - 1 };
                    assert(after[p] == before[bp] && after[q] == before[bq]);
                } else if p == pos {
                    assert(after[q] == before[q - 1]);
                    assert(before[q - 1] < i);
                } else {
                    assert(after[p] == before[p]);
                    assert(before[p] < i);
                }
            }
            assert forall|p: int, q: int| 0 <= p < q < after.len() implies label_lt(
                labels[#[trigger] after[p] as int],
                labels[#[trigger] after[q] as int],
            ) by {
                let li = labels[i as int];
                if p != pos && q != pos {
                    let bp = if p < pos { p } else { p - 1 };
                    let bq = if q < pos { q } else { q - 1 };
                    assert(after[p] == before[bp] && after[q] == before[bq]);
                    assert(label_lt(labels[before[bp] as int], labels[before[bq] as int]));
                } else if p == pos {
                    // the new label is below the one it was put before, and so
                    // below everything after that
                    assert(after[q] == before[q - 1]);
                    assert(pos < before.len());
                    if q - 1 > pos {
                        assert(label_lt(labels[before[pos as int] as int], labels[before[q - 1] as int]));
                        lemma_label_lt_trans(li, labels[before[pos as int] as int], labels[before[q - 1] as int]);
                    }
                } else {
                    assert(after[p] == before[p]);
                    assert(label_lt(labels[before[p] as int], li));
                }
            }
        }
    }
    order
}

impl Default for Graph {
    fn default() -> (g: Graph)
        ensures
            g@ == GraphView::empty(),
            g@.wf(),
    {
        Graph::new()
    }
}

} // verus!
