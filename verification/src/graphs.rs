use crate::pqueue::{pq_change_priority, pq_is_empty, pq_new, pq_pop, pq_push, pq_view};
use vstd::arithmetic::div_mod::{
    lemma_div_is_ordered, lemma_div_multiples_vanish, lemma_div_pos_is_pos, lemma_remainder_lower,
};
use vstd::arithmetic::mul::lemma_mul_inequality;
use vstd::prelude::*;
use vstd::set_lib::{lemma_int_range, lemma_len_subset, set_int_range};

verus! {

broadcast use vstd::set::group_set_axioms;

/// A weighted, directed edge record; the same record is stored on both of
/// its endpoints' adjacency lists.
#[derive(Debug, PartialEq, Hash, Eq)]
pub struct GraphEdge {
    pub value: usize,
    pub edges: (usize, usize),
}

/// A vertex; `index` equals its position in the owning graph's vertex list.
#[derive(Debug, PartialEq, Hash, Eq)]
pub struct GraphVertex {
    pub index: usize,
    pub edges: Option<Vec<GraphEdge>>,
}

/// An in-memory graph: a growable list of vertices, each holding its own
/// adjacency list of edge records.
#[derive(Debug, PartialEq, Hash, Eq)]
pub struct Graph {
    pub vertices: Vec<GraphVertex>,
}

/// The adjacency list of a vertex, as a sequence (absent list = empty).
pub open spec fn edges_of(v: GraphVertex) -> Seq<GraphEdge> {
    match v.edges {
        Some(es) => es@,
        None => Seq::empty(),
    }
}

/// The record that one `connect` call appends to both endpoints' lists:
/// endpoints run from `sender` to `receiver`, or the other way when
/// `invert` is set.
pub open spec fn connect_record(
    value: usize,
    sender: usize,
    receiver: usize,
    invert: bool,
) -> GraphEdge {
    if invert {
        GraphEdge { value, edges: (receiver, sender) }
    } else {
        GraphEdge { value, edges: (sender, receiver) }
    }
}

/// The adjacency lists of a one-vertex graph, as `new` builds it.
pub open spec fn new_model() -> Seq<Seq<GraphEdge>> {
    seq![Seq::<GraphEdge>::empty()]
}

/// What `add` does to the adjacency lists: one more vertex, no edges yet.
pub open spec fn add_model(a: Seq<Seq<GraphEdge>>) -> Seq<Seq<GraphEdge>> {
    a.push(Seq::<GraphEdge>::empty())
}

/// What `connect` does to the adjacency lists: the same record is appended
/// first to the sender's list, then to the receiver's (twice to the one
/// list when the two coincide).
pub open spec fn connect_model(
    a: Seq<Seq<GraphEdge>>,
    value: usize,
    sender: usize,
    receiver: usize,
    invert: bool,
) -> Seq<Seq<GraphEdge>> {
    let rec = connect_record(value, sender, receiver, invert);
    let b = a.update(sender as int, a[sender as int].push(rec));
    b.update(receiver as int, b[receiver as int].push(rec))
}

/// Vertex `v` counts as reached by a traversal from `start` when it is the
/// start vertex itself or carries a nonzero distance (zero doubles as the
/// "never reached" sentinel in the returned arrays).
pub open spec fn visited(d: Seq<usize>, start: int, v: int) -> bool {
    v == start || d[v] != 0
}

/// The vertices a traversal has touched so far (nonzero color mark).
pub open spec fn nonzero_set(colors: Seq<usize>) -> Set<int> {
    Set::new(|i: int| 0 <= i < colors.len() && colors[i] != 0)
}

/// Some edge record runs from a reached vertex `u` to `v`, stored on `u`'s
/// own list, and `v`'s distance is one past `u`'s: the discovery that fixed
/// `v`'s distance.
pub open spec fn bfs_parent(a: Seq<Seq<GraphEdge>>, d: Seq<usize>, start: int, v: int) -> bool {
    exists|u: int, k: int| {
        &&& 0 <= u < a.len()
        &&& 0 <= k < a[u].len()
        &&& a[u][k].edges.0 == u
        &&& a[u][k].edges.1 == v
        &&& visited(d, start, u)
        &&& d[v] == d[u] + 1
    }
}

/// One scan of `a[u]`'s records from position `k` on, exactly as the
/// traversal performs it: a record whose target is still unmarked gets the
/// target marked, assigned the from-endpoint's distance plus one, and pushed
/// onto the frontier; every other record is passed over. Returns the marks,
/// distances and frontier after the scan.
pub open spec fn bfs_scan(
    a: Seq<Seq<GraphEdge>>,
    colors: Seq<usize>,
    distance: Seq<usize>,
    queue: Seq<usize>,
    u: int,
    k: int,
) -> (Seq<usize>, Seq<usize>, Seq<usize>)
    decreases 2 * (colors.len() - nonzero_set(colors).len()) + queue.len(), a[u].len() - k,
    via bfs_scan_decreases
{
    if k < 0 || k >= a[u].len() {
        (colors, distance, queue)
    } else {
        let e = a[u][k];
        let t = e.edges.1 as int;
        if 0 <= t < colors.len() && colors[t] == 0 {
            bfs_scan(
                a,
                colors.update(t, 1),
                distance.update(t, (distance[e.edges.0 as int] + 1) as usize),
                queue.push(e.edges.1),
                u,
                k + 1,
            )
        } else {
            bfs_scan(a, colors, distance, queue, u, k + 1)
        }
    }
}

#[via_fn]
proof fn bfs_scan_decreases(
    a: Seq<Seq<GraphEdge>>,
    colors: Seq<usize>,
    distance: Seq<usize>,
    queue: Seq<usize>,
    u: int,
    k: int,
) {
    lemma_int_range(0, colors.len() as int);
    lemma_len_subset(nonzero_set(colors), set_int_range(0, colors.len() as int));
    if 0 <= k < a[u].len() {
        let t = a[u][k].edges.1 as int;
        if 0 <= t < colors.len() && colors[t] == 0 {
            let colors2 = colors.update(t, 1);
            assert(nonzero_set(colors2) =~= nonzero_set(colors).insert(t));
            lemma_len_subset(nonzero_set(colors2), set_int_range(0, colors.len() as int));
        }
    }
}

/// A scan never grows the traversal measure: every frontier push pairs with
/// a fresh mark. It also keeps the mark and distance arrays' lengths.
proof fn lemma_bfs_scan_measure(
    a: Seq<Seq<GraphEdge>>,
    colors: Seq<usize>,
    distance: Seq<usize>,
    queue: Seq<usize>,
    u: int,
    k: int,
)
    ensures
        ({
            let sc = bfs_scan(a, colors, distance, queue, u, k);
            &&& sc.0.len() == colors.len()
            &&& 2 * (sc.0.len() - nonzero_set(sc.0).len()) + sc.2.len() <= 2 * (colors.len()
                - nonzero_set(colors).len()) + queue.len()
        }),
    decreases 2 * (colors.len() - nonzero_set(colors).len()) + queue.len(), a[u].len() - k,
{
    lemma_int_range(0, colors.len() as int);
    lemma_len_subset(nonzero_set(colors), set_int_range(0, colors.len() as int));
    if 0 <= k < a[u].len() {
        let e = a[u][k];
        let t = e.edges.1 as int;
        if 0 <= t < colors.len() && colors[t] == 0 {
            let colors2 = colors.update(t, 1);
            assert(nonzero_set(colors2) =~= nonzero_set(colors).insert(t));
            assert(nonzero_set(colors2).len() == nonzero_set(colors).len() + 1);
            lemma_len_subset(nonzero_set(colors2), set_int_range(0, colors.len() as int));
            let distance2 = distance.update(t, (distance[e.edges.0 as int] + 1) as usize);
            let queue2 = queue.push(e.edges.1);
            lemma_bfs_scan_measure(a, colors2, distance2, queue2, u, k + 1);
            assert(bfs_scan(a, colors, distance, queue, u, k) == bfs_scan(
                a,
                colors2,
                distance2,
                queue2,
                u,
                k + 1,
            ));
        } else {
            lemma_bfs_scan_measure(a, colors, distance, queue, u, k + 1);
            assert(bfs_scan(a, colors, distance, queue, u, k) == bfs_scan(
                a,
                colors,
                distance,
                queue,
                u,
                k + 1,
            ));
        }
    } else {
        assert(bfs_scan(a, colors, distance, queue, u, k) == (colors, distance, queue));
    }
}

/// The whole traversal: pop the newest frontier entry, scan its records,
/// blacken it, and repeat until the frontier is empty; the distance array is
/// the result.
pub open spec fn bfs_loop(
    a: Seq<Seq<GraphEdge>>,
    colors: Seq<usize>,
    distance: Seq<usize>,
    queue: Seq<usize>,
) -> Seq<usize>
    decreases 2 * (colors.len() - nonzero_set(colors).len()) + queue.len(),
    via bfs_loop_decreases
{
    if queue.len() == 0 {
        distance
    } else {
        let u = queue.last() as int;
        let sc = bfs_scan(a, colors, distance, queue.drop_last(), u, 0);
        let colors2 = if 0 <= u < sc.0.len() {
            sc.0.update(u, 2)
        } else {
            sc.0
        };
        bfs_loop(a, colors2, sc.1, sc.2)
    }
}

#[via_fn]
proof fn bfs_loop_decreases(
    a: Seq<Seq<GraphEdge>>,
    colors: Seq<usize>,
    distance: Seq<usize>,
    queue: Seq<usize>,
) {
    lemma_int_range(0, colors.len() as int);
    lemma_len_subset(nonzero_set(colors), set_int_range(0, colors.len() as int));
    if queue.len() != 0 {
        let u = queue.last() as int;
        lemma_bfs_scan_measure(a, colors, distance, queue.drop_last(), u, 0);
        let sc = bfs_scan(a, colors, distance, queue.drop_last(), u, 0);
        lemma_len_subset(nonzero_set(sc.0), set_int_range(0, sc.0.len() as int));
        if 0 <= u < sc.0.len() {
            let colors2 = sc.0.update(u, 2);
            if sc.0[u] == 0 {
                assert(nonzero_set(colors2) =~= nonzero_set(sc.0).insert(u));
            } else {
                assert(nonzero_set(colors2) =~= nonzero_set(sc.0));
            }
            lemma_len_subset(nonzero_set(colors2), set_int_range(0, sc.0.len() as int));
        }
    }
}

/// The distance array that the three-color, last-in-first-out traversal from
/// `start` yields on the adjacency lists `a` of an `n`-vertex graph: the
/// full functional model of `breadth_first_search`.
pub open spec fn bfs_init_colors(n: int, start: int) -> Seq<usize> {
    Seq::new(
        n as nat,
        |i: int|
            if i == start {
                1usize
            } else {
                0usize
            },
    )
}

pub open spec fn bfs_init_distance(n: int) -> Seq<usize> {
    Seq::new(n as nat, |i: int| 0usize)
}

pub open spec fn bfs_model(a: Seq<Seq<GraphEdge>>, n: int, start: int) -> Seq<usize> {
    bfs_loop(a, bfs_init_colors(n, start), bfs_init_distance(n), seq![start as usize])
}

/// A discovery that fixed some other vertex's distance is untouched when the
/// distance array changes only at a vertex that was still unreached.
proof fn lemma_bfs_parent_stable(
    a: Seq<Seq<GraphEdge>>,
    d0: Seq<usize>,
    d1: Seq<usize>,
    start: int,
    v: int,
    t: int,
)
    requires
        bfs_parent(a, d0, start, v),
        0 <= t < d0.len(),
        d1.len() == d0.len(),
        forall|j: int| 0 <= j < d0.len() && j != t ==> d0[j] == #[trigger] d1[j],
        d0[t] == 0,
        t != start,
        v != t,
        0 <= v < d0.len(),
        a.len() == d0.len(),
    ensures
        bfs_parent(a, d1, start, v),
{
    let (u, k): (int, int) = choose|u: int, k: int| {
        &&& 0 <= u < a.len()
        &&& 0 <= k < a[u].len()
        &&& a[u][k].edges.0 == u
        &&& a[u][k].edges.1 == v
        &&& visited(d0, start, u)
        &&& d0[v] == d0[u] + 1
    };
    assert(u != t);
    assert({
        &&& 0 <= u < a.len()
        &&& 0 <= k < a[u].len()
        &&& a[u][k].edges.0 == u
        &&& a[u][k].edges.1 == v
        &&& visited(d1, start, u)
        &&& d1[v] == d1[u] + 1
    });
}

/// Every stored weight is at least one, and small enough that no distance
/// value the traversal can form overflows a machine word.
pub open spec fn weights_fit(g: Graph) -> bool {
    forall|u: int, k: int| 0 <= u < g.adj().len() && 0 <= k < g.adj()[u].len() ==> {
        let w = (#[trigger] g.adj()[u][k]).value;
        &&& 1 <= w
        &&& (g.vertices@.len() + 1) * w <= usize::MAX
    }
}

/// Some edge record, stored on its own from-vertex, enters `v` and weighs no
/// more than `v`'s recorded distance: what the relaxation that last wrote
/// `d[v]` guarantees.
pub open spec fn dij_source(a: Seq<Seq<GraphEdge>>, d: Seq<usize>, v: int) -> bool {
    exists|u: int, k: int| {
        &&& 0 <= u < a.len()
        &&& 0 <= k < a[u].len()
        &&& a[u][k].edges.0 == u
        &&& a[u][k].edges.1 == v
        &&& a[u][k].value <= d[v]
    }
}

/// `d` is the total weight of some directed path of exactly `hops` stored
/// records from `start` to `v`, each record held on its own from-vertex's
/// list.
pub open spec fn reaches_with(
    a: Seq<Seq<GraphEdge>>,
    start: int,
    v: int,
    d: int,
    hops: nat,
) -> bool
    decreases hops,
{
    if hops == 0 {
        v == start && d == 0
    } else {
        exists|u: int, k: int| {
            &&& 0 <= u < a.len()
            &&& 0 <= k < a[u].len()
            &&& a[u][k].edges.0 == u
            &&& a[u][k].edges.1 == v
            &&& reaches_with(a, start, u, d - a[u][k].value, (hops - 1) as nat)
        }
    }
}

/// `d` is realized by some directed path of stored records from the start
/// vertex to `v`.
pub open spec fn path_from_start(a: Seq<Seq<GraphEdge>>, start: int, v: int, d: int) -> bool {
    exists|hops: nat| reaches_with(a, start, v, d, hops)
}

/// Extending a realized path by one stored record realizes the extended
/// total at the record's target.
proof fn lemma_path_step(a: Seq<Seq<GraphEdge>>, start: int, u: int, k: int, d: int)
    requires
        path_from_start(a, start, u, d),
        0 <= u < a.len(),
        0 <= k < a[u].len(),
        a[u][k].edges.0 == u,
    ensures
        path_from_start(a, start, a[u][k].edges.1 as int, d + a[u][k].value),
{
    let hops = choose|hops: nat| reaches_with(a, start, u, d, hops);
    let v = a[u][k].edges.1 as int;
    let nd = d + a[u][k].value;
    let ext = hops + 1;
    assert({
        &&& 0 <= u < a.len()
        &&& 0 <= k < a[u].len()
        &&& a[u][k].edges.0 == u
        &&& a[u][k].edges.1 == v
        &&& reaches_with(a, start, u, nd - a[u][k].value, (ext - 1) as nat)
    });
    assert(reaches_with(a, start, v, nd, ext));
}

/// Every record leaving `u` on `u`'s own list towards another vertex has been
/// relaxed: its target carries a nonzero distance no greater than the
/// record's weight plus `u`'s own distance.
pub open spec fn settled_ok(a: Seq<Seq<GraphEdge>>, d: Seq<usize>, u: int) -> bool {
    forall|k: int| 0 <= k < a[u].len()
        && (#[trigger] a[u][k]).edges.0 == u
        && a[u][k].edges.1 != u
        ==> d[a[u][k].edges.1 as int] != 0
            && d[a[u][k].edges.1 as int] <= a[u][k].value + d[u]
}

/// A relaxation witness survives any change that does not lower `v`'s own
/// recorded distance.
proof fn lemma_dij_source_stable(a: Seq<Seq<GraphEdge>>, d0: Seq<usize>, d1: Seq<usize>, v: int)
    requires
        dij_source(a, d0, v),
        d0[v] <= d1[v],
    ensures
        dij_source(a, d1, v),
{
    let (u, k): (int, int) = choose|u: int, k: int| {
        &&& 0 <= u < a.len()
        &&& 0 <= k < a[u].len()
        &&& a[u][k].edges.0 == u
        &&& a[u][k].edges.1 == v
        &&& a[u][k].value <= d0[v]
    };
    assert({
        &&& 0 <= u < a.len()
        &&& 0 <= k < a[u].len()
        &&& a[u][k].edges.0 == u
        &&& a[u][k].edges.1 == v
        &&& a[u][k].value <= d1[v]
    });
}

/// The total of all entries of a distance array.
pub open spec fn sum_usizes(s: Seq<usize>) -> int
    decreases s.len(),
{
    if s.len() == 0 {
        0
    } else {
        sum_usizes(s.drop_last()) + s.last()
    }
}

proof fn lemma_sum_nonneg(s: Seq<usize>)
    ensures
        sum_usizes(s) >= 0,
    decreases s.len(),
{
    if s.len() > 0 {
        lemma_sum_nonneg(s.drop_last());
    }
}

proof fn lemma_sum_update(s: Seq<usize>, i: int, x: usize)
    requires
        0 <= i < s.len(),
    ensures
        sum_usizes(s.update(i, x)) == sum_usizes(s) - s[i] + x,
    decreases s.len(),
{
    let t = s.update(i, x);
    if i == s.len() - 1 {
        assert(t.drop_last() =~= s.drop_last());
        assert(t.last() == x);
    } else {
        assert(t.drop_last() =~= s.drop_last().update(i, x));
        assert(t.last() == s.last());
        lemma_sum_update(s.drop_last(), i, x);
    }
}

/// A vector of `n` zeros: the initial color and distance arrays.
fn zero_vec(n: usize) -> (r: Vec<usize>)
    ensures
        r@.len() == n,
        forall|i: int| 0 <= i < n ==> r@[i] == 0,
{
    let mut r: Vec<usize> = Vec::new();
    while r.len() < n
        invariant
            r@.len() <= n,
            forall|i: int| 0 <= i < r@.len() ==> r@[i] == 0,
        decreases n - r@.len(),
    {
        r.push(0);
    }
    r
}

impl Default for Graph {
    /// A default graph is exactly what `new` yields: one vertex, no edges.
    fn default() -> (g: Self)
        ensures
            g.wf(),
            g.vertices@ =~= seq![GraphVertex { index: 0, edges: None }],
    {
        Self::new()
    }
}

impl Graph {
    /// Well-formedness: at least one vertex; every vertex's `index` is its
    /// position; every stored edge record has in-range endpoints and touches
    /// the vertex whose list holds it.
    pub open spec fn wf(self) -> bool {
        &&& self.vertices@.len() >= 1
        &&& forall|i: int| 0 <= i < self.vertices@.len() ==>
            #[trigger] self.vertices@[i].index == i
        &&& forall|i: int, k: int| 0 <= i < self.vertices@.len()
                && 0 <= k < edges_of(self.vertices@[i]).len() ==> {
            let e = #[trigger] edges_of(self.vertices@[i])[k];
            &&& e.edges.0 < self.vertices@.len()
            &&& e.edges.1 < self.vertices@.len()
            &&& (e.edges.0 == i || e.edges.1 == i)
        }
    }

    /// The adjacency lists of all vertices, in vertex order.
    pub open spec fn adj(self) -> Seq<Seq<GraphEdge>> {
        self.vertices@.map_values(|v: GraphVertex| edges_of(v))
    }

    /// A fresh graph holds exactly one vertex, index 0, with no edges.
    pub fn new() -> (g: Self)
        ensures
            g.wf(),
            g.vertices@ =~= seq![GraphVertex { index: 0, edges: None }],
            g.adj() =~= new_model(),
    {
        Graph {
            vertices: vec![GraphVertex { index: 0, edges: None }],
        }
    }

    /// Appends a fresh vertex whose index equals the previous vertex count;
    /// no other vertex is touched.
    pub fn add(&mut self)
        requires
            old(self).wf(),
        ensures
            final(self).wf(),
            final(self).vertices@ =~= old(self).vertices@.push(
                (GraphVertex { index: old(self).vertices@.len() as usize, edges: None }),
            ),
            final(self).adj() =~= add_model(old(self).adj()),
    {
        self.vertices.push(GraphVertex {
            index: self.vertices.len(),
            edges: None,
        })
    }

    /// Appends one record with endpoints `(sender, receiver)` to the list of
    /// the vertex at `index`, which must be one of the two endpoints.
    fn pusher(&mut self, value: usize, sender: usize, receiver: usize, index: usize)
        requires
            old(self).wf(),
            sender < old(self).vertices@.len(),
            receiver < old(self).vertices@.len(),
            index == sender || index == receiver,
        ensures
            final(self).wf(),
            final(self).vertices@.len() == old(self).vertices@.len(),
            forall|j: int| 0 <= j < old(self).vertices@.len()
                ==> #[trigger] final(self).vertices@[j].index == old(self).vertices@[j].index,
            final(self).adj() =~= old(self).adj().update(
                index as int,
                old(self).adj()[index as int].push(
                    (GraphEdge { value, edges: (sender, receiver) }),
                ),
            ),
            forall|j: int| 0 <= j < old(self).vertices@.len() && j != index
                ==> #[trigger] final(self).vertices@[j] == old(self).vertices@[j],
            final(self).vertices@[index as int].edges is Some,
    {
        let rec = GraphEdge { value, edges: (sender, receiver) };
        let v = self.vertices.remove(index);
        let GraphVertex { index: vi, edges } = v;
        let new_edges = match edges {
            Some(mut es) => {
                es.push(rec);
                es
            }
            None => vec![rec],
        };
        self.vertices.insert(index, GraphVertex { index: vi, edges: Some(new_edges) });
        proof {
            let grec = GraphEdge { value, edges: (sender, receiver) };
            let ovs = old(self).vertices@;
            let nvs = self.vertices@;
            assert(nvs =~= ovs.update(index as int, nvs[index as int]));
            assert(edges_of(nvs[index as int]) =~= edges_of(ovs[index as int]).push(grec));
            assert(self.adj() =~= old(self).adj().update(
                index as int,
                old(self).adj()[index as int].push(grec),
            ));
            assert forall|i: int, k: int|
                0 <= i < nvs.len() && 0 <= k < edges_of(nvs[i]).len() implies {
                let e = #[trigger] edges_of(nvs[i])[k];
                &&& e.edges.0 < nvs.len()
                &&& e.edges.1 < nvs.len()
                &&& (e.edges.0 == i || e.edges.1 == i)
            } by {
                if i == index as int {
                    if k < edges_of(ovs[i]).len() {
                        assert(edges_of(nvs[i])[k] == edges_of(ovs[i])[k]);
                    } else {
                        assert(edges_of(nvs[i])[k] == grec);
                    }
                } else {
                    assert(nvs[i] == ovs[i]);
                }
            }
        }
    }

    /// Appends the same record to both named vertices' edge lists: endpoints
    /// `(sender, receiver)` when `invert` is false, `(receiver, sender)` when
    /// it is true. Vertex count and all other vertices are unchanged; calling
    /// this twice with the same arguments yields two parallel records.
    pub fn connect(&mut self, value: usize, sender: usize, receiver: usize, invert: bool)
        requires
            old(self).wf(),
            sender < old(self).vertices@.len(),
            receiver < old(self).vertices@.len(),
        ensures
            final(self).wf(),
            final(self).vertices@.len() == old(self).vertices@.len(),
            forall|j: int| 0 <= j < old(self).vertices@.len()
                ==> #[trigger] final(self).vertices@[j].index == old(self).vertices@[j].index,
            final(self).adj() =~= connect_model(old(self).adj(), value, sender, receiver, invert),
            forall|j: int| 0 <= j < old(self).vertices@.len() && j != sender && j != receiver
                ==> #[trigger] final(self).vertices@[j] == old(self).vertices@[j],
            final(self).vertices@[sender as int].edges is Some,
            final(self).vertices@[receiver as int].edges is Some,
    {
        if !invert {
            self.pusher(value, sender, receiver, sender);
            self.pusher(value, sender, receiver, receiver);
        } else {
            self.pusher(value, receiver, sender, sender);
            self.pusher(value, receiver, sender, receiver);
        }
    }

    /// Unweighted distances from `start_node`, one entry per vertex: a
    /// three-color traversal with a last-in-first-out frontier that assigns
    /// each vertex a distance exactly once, at first discovery. The result
    /// is exactly `bfs_model` of the adjacency lists — the traversal is
    /// deterministic, so two calls on an unchanged graph agree. The start
    /// vertex keeps distance 0; so does every vertex the traversal never
    /// reaches. Every nonzero distance was produced by following one stored
    /// edge record forward from a reached vertex, and every record leaving a
    /// reached vertex leads to a reached vertex.
    #[verifier::loop_isolation(false)]
    #[verifier::rlimit(60)]
    pub fn breadth_first_search(&self, start_node: usize) -> (distance: Vec<usize>)
        requires
            self.wf(),
            start_node < self.vertices@.len(),
        ensures
            distance@ == bfs_model(
                self.adj(),
                self.vertices@.len() as int,
                start_node as int,
            ),
            distance@.len() == self.vertices@.len(),
            distance@[start_node as int] == 0,
            forall|v: int| 0 <= v < self.vertices@.len()
                ==> #[trigger] distance@[v] < self.vertices@.len(),
            forall|v: int| 0 <= v < self.vertices@.len() && v != start_node
                && #[trigger] distance@[v] != 0
                ==> bfs_parent(self.adj(), distance@, start_node as int, v),
            forall|u: int, k: int| 0 <= u < self.vertices@.len()
                && visited(distance@, start_node as int, u)
                && 0 <= k < self.adj()[u].len()
                ==> visited(distance@, start_node as int,
                        (#[trigger] self.adj()[u][k]).edges.1 as int),
    {
        let ghost start = start_node as int;
        let ghost a = self.adj();
        let n = self.vertices.len();
        let mut queue: Vec<usize> = Vec::new();
        queue.push(start_node);
        // make every vertex white: 0 -> white, 1 -> gray, 2 -> black
        let mut colors: Vec<usize> = zero_vec(n);
        colors[start_node] = 1;
        // distance from the starting vertex, per vertex index
        let mut distance: Vec<usize> = zero_vec(n);
        proof {
            assert(nonzero_set(colors@) =~= Set::empty().insert(start));
            lemma_int_range(0, n as int);
            assert(queue@[0] == start_node);
            assert(queue@.contains(start_node));
            assert(colors@ =~= bfs_init_colors(n as int, start));
            assert(distance@ =~= bfs_init_distance(n as int));
            assert(queue@ =~= seq![start_node]);
            assert(bfs_loop(a, colors@, distance@, queue@) == bfs_model(a, n as int, start));
        }
        while queue.len() > 0
            invariant
                colors@.len() == n,
                distance@.len() == n,
                forall|j: int| 0 <= j < queue@.len() ==> #[trigger] queue@[j] < n,
                forall|j: int| 0 <= j < queue@.len()
                    ==> colors@[#[trigger] queue@[j] as int] != 0,
                forall|j1: int, j2: int| 0 <= j1 < j2 < queue@.len()
                    ==> queue@[j1] != queue@[j2],
                colors@[start] != 0,
                distance@[start] == 0,
                forall|v: int| 0 <= v < n
                    ==> ((#[trigger] colors@[v] != 0) <==> visited(distance@, start, v)),
                forall|v: int| 0 <= v < n && v != start && #[trigger] distance@[v] != 0
                    ==> bfs_parent(a, distance@, start, v),
                forall|u: int| 0 <= u < n && #[trigger] colors@[u] != 0
                    && !queue@.contains(u as usize)
                    ==> forall|k: int| 0 <= k < a[u].len()
                        ==> colors@[(#[trigger] a[u][k]).edges.1 as int] != 0,
                nonzero_set(colors@).finite(),
                nonzero_set(colors@).len() <= n,
                forall|v: int| 0 <= v < n
                    ==> #[trigger] distance@[v] < nonzero_set(colors@).len(),
                bfs_loop(a, colors@, distance@, queue@) == bfs_model(a, n as int, start),
            decreases 2 * (n - nonzero_set(colors@).len()) + queue@.len(),
        {
            let ghost qh = queue@;
            let ghost ch = colors@;
            let ghost dh = distance@;
            let current = queue.pop().unwrap();
            proof {
                assert(!queue@.contains(current));
            }
            let ghost m0 = queue@.len() + 2 * (n - nonzero_set(colors@).len());
            let ghost q1 = queue@;
            if let Some(es) = &self.vertices[current].edges {
                proof {
                    assert(es@ == a[current as int]);
                    assert forall|u: int| 0 <= u < n && colors@[u] != 0
                        && !queue@.contains(u as usize) && u != current as int
                        implies !qh.contains(u as usize) by {
                        if qh.contains(u as usize) {
                            let j = choose|j: int| 0 <= j < qh.len()
                                && qh[j] == u as usize;
                            if j < qh.len() - 1 {
                                assert(queue@[j] == u as usize);
                            } else {
                                assert(current == u as usize);
                            }
                        }
                    }
                }
                let m = es.len();
                let mut k: usize = 0;
                while k < m
                    invariant
                        k <= m,
                        colors@.len() == n,
                        distance@.len() == n,
                        colors@[current as int] != 0,
                        !queue@.contains(current),
                        forall|j: int| 0 <= j < queue@.len() ==> #[trigger] queue@[j] < n,
                        forall|j: int| 0 <= j < queue@.len()
                            ==> colors@[#[trigger] queue@[j] as int] != 0,
                        forall|j1: int, j2: int| 0 <= j1 < j2 < queue@.len()
                            ==> queue@[j1] != queue@[j2],
                        colors@[start] != 0,
                        distance@[start] == 0,
                        forall|v: int| 0 <= v < n
                            ==> ((#[trigger] colors@[v] != 0)
                                <==> visited(distance@, start, v)),
                        forall|v: int| 0 <= v < n && v != start
                            && #[trigger] distance@[v] != 0
                            ==> bfs_parent(a, distance@, start, v),
                        forall|u: int| 0 <= u < n && #[trigger] colors@[u] != 0
                            && !queue@.contains(u as usize) && u != current
                            ==> forall|kk: int| 0 <= kk < a[u].len()
                                ==> colors@[(#[trigger] a[u][kk]).edges.1 as int] != 0,
                        forall|kk: int| 0 <= kk < k
                            ==> colors@[(#[trigger] a[current as int][kk]).edges.1 as int]
                                != 0,
                        q1.is_prefix_of(queue@),
                        forall|v: int| 0 <= v < n && ch[v] != 0
                            ==> #[trigger] colors@[v] != 0,
                        forall|v: int| 0 <= v < n && #[trigger] colors@[v] != 0 && ch[v] == 0
                            ==> queue@.contains(v as usize),
                        nonzero_set(colors@).finite(),
                        nonzero_set(colors@).len() <= n,
                        forall|v: int| 0 <= v < n
                            ==> #[trigger] distance@[v] < nonzero_set(colors@).len(),
                        queue@.len() + 2 * (n - nonzero_set(colors@).len()) <= m0,
                        bfs_scan(a, ch, dh, q1, current as int, 0) == bfs_scan(
                            a,
                            colors@,
                            distance@,
                            queue@,
                            current as int,
                            k as int,
                        ),
                    decreases m - k,
                {
                    let e = &es[k];
                    let ghost cs0 = nonzero_set(colors@);
                    let ghost d0 = distance@;
                    let ghost cb = colors@;
                    let ghost qb = queue@;
                    if colors[e.edges.1] == 0 {
                        proof {
                            assert(a[current as int][k as int].edges.1 == e.edges.1);
                            assert(e.edges.1 as int != current as int);
                            assert(e.edges.0 == current);
                            lemma_len_subset(cs0, set_int_range(0, n as int));
                        }
                        colors[e.edges.1] = 1;
                        distance[e.edges.1] = distance[e.edges.0] + 1;
                        queue.push(e.edges.1);
                        proof {
                            let t = e.edges.1 as int;
                            assert(nonzero_set(colors@) =~= cs0.insert(t));
                            assert(nonzero_set(colors@).len() == cs0.len() + 1);
                            lemma_int_range(0, n as int);
                            lemma_len_subset(nonzero_set(colors@), set_int_range(0, n as int));
                            assert(bfs_parent(a, distance@, start, t)) by {
                                let u = current as int;
                                let kk = k as int;
                                assert({
                                    &&& 0 <= u
                                    &&& u < a.len()
                                    &&& 0 <= kk
                                    &&& kk < a[u].len()
                                    &&& a[u][kk].edges.0 == u
                                    &&& a[u][kk].edges.1 == t
                                    &&& visited(distance@, start, u)
                                    &&& distance@[t] == distance@[u] + 1
                                });
                            }
                            assert forall|v: int| 0 <= v < n && v != start
                                && #[trigger] distance@[v] != 0
                                implies bfs_parent(a, distance@, start, v) by {
                                if v != t {
                                    lemma_bfs_parent_stable(a, d0, distance@, start, v, t);
                                }
                            }
                            assert(queue@[queue@.len() - 1] == e.edges.1);
                            assert forall|v: int| 0 <= v < n && #[trigger] colors@[v] != 0
                                && ch[v] == 0
                                implies queue@.contains(v as usize) by {
                                if v != t {
                                    let j = choose|j: int| 0 <= j < qb.len()
                                        && qb[j] == v as usize;
                                    assert(queue@[j] == v as usize);
                                }
                            }
                            assert forall|u: int| 0 <= u < n && #[trigger] colors@[u] != 0
                                && !queue@.contains(u as usize) && u != current as int
                                implies forall|kk: int| 0 <= kk < a[u].len()
                                    ==> colors@[(#[trigger] a[u][kk]).edges.1 as int] != 0 by {
                                assert(u != t);
                                assert(cb[u] != 0);
                                assert(!qb.contains(u as usize)) by {
                                    if qb.contains(u as usize) {
                                        let j = choose|j: int| 0 <= j < qb.len()
                                            && qb[j] == u as usize;
                                        assert(queue@[j] == u as usize);
                                    }
                                }
                                assert forall|kk: int| 0 <= kk < a[u].len()
                                    implies colors@[(#[trigger] a[u][kk]).edges.1 as int] != 0 by {
                                    assert(cb[a[u][kk].edges.1 as int] != 0);
                                }
                            }
                        }
                    }
                    proof {
                        assert((d0[e.edges.0 as int] + 1) as usize == d0[e.edges.0 as int]
                            + 1);
                        assert(bfs_scan(a, cb, d0, qb, current as int, k as int) == bfs_scan(
                            a,
                            colors@,
                            distance@,
                            queue@,
                            current as int,
                            k as int + 1,
                        ));
                    }
                    k += 1;
                }
                proof {
                    assert(bfs_scan(a, colors@, distance@, queue@, current as int, m as int)
                        == (colors@, distance@, queue@));
                    assert(bfs_scan(a, ch, dh, q1, current as int, 0) == (
                        colors@,
                        distance@,
                        queue@,
                    ));
                }
            } else {
                proof {
                    assert(a[current as int].len() == 0);
                    assert(bfs_scan(a, ch, dh, q1, current as int, 0) == (
                        colors@,
                        distance@,
                        queue@,
                    ));
                }
            }
            let ghost c0 = colors@;
            colors[current] = 2;
            proof {
                assert(nonzero_set(colors@) =~= nonzero_set(c0));
                let sc = bfs_scan(a, ch, dh, q1, current as int, 0);
                assert(sc.0 == c0 && sc.1 == distance@ && sc.2 == queue@);
                assert(qh.drop_last() == q1 && qh.last() == current);
                assert(colors@ == sc.0.update(current as int, 2));
                assert(bfs_loop(a, ch, dh, qh) == bfs_loop(a, colors@, distance@, queue@));
                assert forall|u: int| 0 <= u < n && #[trigger] colors@[u] != 0
                    && !queue@.contains(u as usize)
                    implies forall|kk: int| 0 <= kk < a[u].len()
                        ==> colors@[(#[trigger] a[u][kk]).edges.1 as int] != 0 by {
                    if u == current as int {
                        assert forall|kk: int| 0 <= kk < a[u].len()
                            implies colors@[(#[trigger] a[u][kk]).edges.1 as int] != 0 by {
                            assert(c0[a[u][kk].edges.1 as int] != 0);
                        }
                    } else {
                        assert(c0[u] != 0);
                        assert(ch[u] != 0);
                        assert(!q1.contains(u as usize)) by {
                            if q1.contains(u as usize) {
                                let j = choose|j: int| 0 <= j < q1.len()
                                    && q1[j] == u as usize;
                                assert(queue@[j] == u as usize);
                            }
                        }
                        assert(!qh.contains(u as usize)) by {
                            if qh.contains(u as usize) {
                                let j = choose|j: int| 0 <= j < qh.len()
                                    && qh[j] == u as usize;
                                if j < qh.len() - 1 {
                                    assert(q1[j] == u as usize);
                                } else {
                                    assert(current == u as usize);
                                }
                            }
                        }
                        assert forall|kk: int| 0 <= kk < a[u].len()
                            implies colors@[(#[trigger] a[u][kk]).edges.1 as int] != 0 by {
                            assert(ch[a[u][kk].edges.1 as int] != 0);
                        }
                    }
                }
            }
        }
        proof {
            assert(bfs_loop(a, colors@, distance@, queue@) == distance@);
            assert forall|u: int, k: int| 0 <= u < n && visited(distance@, start, u)
                && 0 <= k < a[u].len()
                implies visited(distance@, start, (#[trigger] a[u][k]).edges.1 as int) by {
                assert(!queue@.contains(u as usize));
                assert(colors@[u] != 0);
                assert(colors@[a[u][k].edges.1 as int] != 0);
            }
        }
        distance
    }

    /// Weighted distances from `start_node`, one entry per vertex, driven by
    /// an outside priority structure: repeatedly extracts a queued vertex,
    /// skips records whose stored target is the extracted vertex itself, and
    /// otherwise relaxes the record from its stored from-endpoint. Zero is
    /// both the start vertex's distance and the "never reached" sentinel.
    /// When the queue empties, every record leaving a reached vertex has been
    /// relaxed (its target holds a nonzero distance at most the record's
    /// weight plus the source's distance), every nonzero distance is
    /// witnessed by a record entering that vertex, and every nonzero
    /// distance is the exact total weight of some directed path of stored
    /// records from the start vertex. Which of several equally
    /// prioritized vertices the structure hands back first is left to the
    /// outside crate, so only properties that hold for every such order are
    /// stated.
    #[verifier::loop_isolation(false)]
    #[verifier::rlimit(100)]
    pub fn dijkstra(&self, start_node: usize) -> (distance: Vec<usize>)
        requires
            self.wf(),
            start_node < self.vertices@.len(),
            weights_fit(*self),
        ensures
            distance@.len() == self.vertices@.len(),
            forall|u: int| 0 <= u < self.vertices@.len()
                && visited(distance@, start_node as int, u)
                ==> settled_ok(self.adj(), distance@, u),
            forall|v: int| 0 <= v < self.vertices@.len() && #[trigger] distance@[v] != 0
                ==> dij_source(self.adj(), distance@, v),
            forall|v: int| 0 <= v < self.vertices@.len() && #[trigger] distance@[v] != 0
                ==> path_from_start(self.adj(), start_node as int, v, distance@[v] as int),
    {
        let ghost start = start_node as int;
        let ghost a = self.adj();
        let n = self.vertices.len();
        let ghost wb = usize::MAX as int / (n as int + 1);
        let mut distance: Vec<usize> = zero_vec(n);
        let mut queue = pq_new();
        pq_push(&mut queue, start_node, 0);
        proof {
            lemma_div_pos_is_pos(usize::MAX as int, n as int + 1);
            lemma_int_range(0, n as int);
            assert(pq_view(queue).dom() =~= Set::empty().insert(start_node));
            assert(nonzero_set(distance@) =~= Set::empty());
            lemma_sum_nonneg(distance@);
        }
        while !pq_is_empty(&queue)
            invariant
                distance@.len() == n,
                pq_view(queue).dom().finite(),
                forall|i: usize| pq_view(queue).dom().contains(i) ==> i < n,
                forall|u: int| 0 <= u < n && visited(distance@, start, u)
                    && !pq_view(queue).dom().contains(u as usize)
                    ==> settled_ok(a, distance@, u),
                forall|v: int| 0 <= v < n && #[trigger] distance@[v] != 0
                    ==> dij_source(a, distance@, v),
                forall|i: usize| pq_view(queue).dom().contains(i)
                    ==> visited(distance@, start, i as int),
                forall|v: int| 0 <= v < n && #[trigger] distance@[v] != 0
                    ==> path_from_start(a, start, v, distance@[v] as int),
                nonzero_set(distance@).finite(),
                nonzero_set(distance@).len() <= n,
                forall|v: int| 0 <= v < n
                    ==> #[trigger] distance@[v] <= nonzero_set(distance@).len() * wb,
            decreases
                n - nonzero_set(distance@).len(),
                sum_usizes(distance@),
                pq_view(queue).dom().len(),
        {
            let ghost mh = pq_view(queue);
            let r = pq_pop(&mut queue);
            let pair = r.unwrap();
            let current = pair.0;
            let min_value = pair.1;
            proof {
                assert(mh.dom().contains(current));
                assert(current < n);
                assert(pq_view(queue).dom() =~= mh.dom().remove(current));
            }
            let ghost n0 = n - nonzero_set(distance@).len();
            let ghost p0 = sum_usizes(distance@);
            let ghost q0 = pq_view(queue).dom().len();
            if let Some(es) = &self.vertices[current].edges {
                proof {
                    assert(es@ == a[current as int]);
                }
                let m = es.len();
                let mut k: usize = 0;
                while k < m
                    invariant
                        k <= m,
                        distance@.len() == n,
                        pq_view(queue).dom().finite(),
                        forall|i: usize| pq_view(queue).dom().contains(i) ==> i < n,
                        !pq_view(queue).dom().contains(current),
                        forall|u: int| 0 <= u < n && visited(distance@, start, u)
                            && !pq_view(queue).dom().contains(u as usize)
                            && u != current
                            ==> settled_ok(a, distance@, u),
                        forall|kk: int| 0 <= kk < k
                            && (#[trigger] a[current as int][kk]).edges.0 == current
                            && a[current as int][kk].edges.1 != current
                            ==> distance@[a[current as int][kk].edges.1 as int] != 0
                                && distance@[a[current as int][kk].edges.1 as int]
                                    <= a[current as int][kk].value
                                        + distance@[current as int],
                        forall|v: int| 0 <= v < n && #[trigger] distance@[v] != 0
                            ==> dij_source(a, distance@, v),
                        forall|i: usize| pq_view(queue).dom().contains(i)
                            ==> visited(distance@, start, i as int),
                        visited(distance@, start, current as int),
                        forall|v: int| 0 <= v < n && #[trigger] distance@[v] != 0
                            ==> path_from_start(a, start, v, distance@[v] as int),
                        nonzero_set(distance@).finite(),
                        nonzero_set(distance@).len() <= n,
                        forall|v: int| 0 <= v < n
                            ==> #[trigger] distance@[v]
                                <= nonzero_set(distance@).len() * wb,
                        n - nonzero_set(distance@).len() <= n0,
                        n - nonzero_set(distance@).len() == n0
                            ==> sum_usizes(distance@) <= p0,
                        n - nonzero_set(distance@).len() == n0
                            && sum_usizes(distance@) == p0
                            ==> pq_view(queue).dom().len() <= q0,
                    decreases m - k,
                {
                    let e = &es[k];
                    proof {
                        assert(a[current as int][k as int] == es@[k as int]);
                        assert(e.edges.0 < n && e.edges.1 < n);
                        assert(1 <= e.value && (n + 1) * e.value <= usize::MAX);
                        lemma_div_is_ordered(
                            (n as int + 1) * e.value,
                            usize::MAX as int,
                            n as int + 1,
                        );
                        lemma_div_multiples_vanish(e.value as int, n as int + 1);
                        assert(e.value <= wb);
                        lemma_mul_inequality(
                            nonzero_set(distance@).len() as int,
                            n as int,
                            wb,
                        );
                        lemma_remainder_lower(usize::MAX as int, n as int + 1);
                        assert((n as int + 1) * wb == n as int * wb + wb)
                            by (nonlinear_arith);
                        assert(e.value + distance@[e.edges.0 as int] <= usize::MAX);
                    }
                    let new_distance = e.value + distance[e.edges.0];
                    if e.edges.1 != current {
                        proof {
                            assert(e.edges.0 == current);
                        }
                        if distance[e.edges.1] == 0 {
                            let ghost db = distance@;
                            let ghost mb = pq_view(queue);
                            let ghost nzb = nonzero_set(distance@);
                            distance[e.edges.1] = new_distance;
                            pq_push(&mut queue, e.edges.1, min_value);
                            pq_change_priority(&mut queue, e.edges.0, new_distance);
                            proof {
                                let t = e.edges.1 as int;
                                assert(distance@ =~= db.update(t, new_distance));
                                assert(new_distance >= 1);
                                assert(nonzero_set(distance@) =~= nzb.insert(t));
                                assert(nonzero_set(distance@).len() == nzb.len() + 1);
                                lemma_len_subset(
                                    nonzero_set(distance@),
                                    set_int_range(0, n as int),
                                );
                                lemma_sum_update(db, t, new_distance);
                                lemma_sum_nonneg(distance@);
                                assert(path_from_start(a, start, current as int,
                                    db[current as int] as int)) by {
                                    if db[current as int] == 0 {
                                        assert(current as int == start);
                                        assert(reaches_with(a, start, start, 0, 0));
                                    }
                                }
                                lemma_path_step(
                                    a,
                                    start,
                                    current as int,
                                    k as int,
                                    db[current as int] as int,
                                );
                                assert(path_from_start(a, start, t, new_distance as int));
                                assert(pq_view(queue).dom() =~= mb.dom().insert(e.edges.1));
                                assert forall|v: int| 0 <= v < n
                                    implies #[trigger] distance@[v]
                                        <= nonzero_set(distance@).len() * wb by {
                                    assert((nzb.len() + 1) as int * wb
                                        == nzb.len() as int * wb + wb) by (nonlinear_arith);
                                }
                                assert forall|v: int| 0 <= v < n
                                    && #[trigger] distance@[v] != 0
                                    implies dij_source(a, distance@, v) by {
                                    if v == t {
                                        let u2 = current as int;
                                        let k2 = k as int;
                                        assert({
                                            &&& 0 <= u2 < a.len()
                                            &&& 0 <= k2 < a[u2].len()
                                            &&& a[u2][k2].edges.0 == u2
                                            &&& a[u2][k2].edges.1 == v
                                            &&& a[u2][k2].value <= distance@[v]
                                        });
                                    } else {
                                        lemma_dij_source_stable(a, db, distance@, v);
                                    }
                                }
                                assert forall|u: int| 0 <= u < n
                                    && visited(distance@, start, u)
                                    && !pq_view(queue).dom().contains(u as usize)
                                    && u != current
                                    implies settled_ok(a, distance@, u) by {
                                    assert(u != t);
                                    assert(!mb.dom().contains(u as usize));
                                    assert(settled_ok(a, db, u));
                                    assert forall|kk: int| 0 <= kk < a[u].len()
                                        && (#[trigger] a[u][kk]).edges.0 == u
                                        && a[u][kk].edges.1 != u
                                        implies distance@[a[u][kk].edges.1 as int] != 0
                                            && distance@[a[u][kk].edges.1 as int]
                                                <= a[u][kk].value + distance@[u] by {
                                        assert(db[a[u][kk].edges.1 as int] != 0);
                                        assert(a[u][kk].edges.1 as int != t);
                                    }
                                }
                            }
                        }
                        if new_distance < distance[e.edges.1] {
                            let ghost db = distance@;
                            let ghost mb = pq_view(queue);
                            distance[e.edges.1] = new_distance;
                            pq_push(&mut queue, e.edges.1, min_value);
                            pq_change_priority(&mut queue, e.edges.0, new_distance);
                            proof {
                                let t = e.edges.1 as int;
                                assert(distance@ =~= db.update(t, new_distance));
                                assert(new_distance >= 1);
                                assert(nonzero_set(distance@) =~= nonzero_set(db));
                                lemma_sum_update(db, t, new_distance);
                                lemma_sum_nonneg(distance@);
                                assert(path_from_start(a, start, current as int,
                                    db[current as int] as int)) by {
                                    if db[current as int] == 0 {
                                        assert(current as int == start);
                                        assert(reaches_with(a, start, start, 0, 0));
                                    }
                                }
                                lemma_path_step(
                                    a,
                                    start,
                                    current as int,
                                    k as int,
                                    db[current as int] as int,
                                );
                                assert(path_from_start(a, start, t, new_distance as int));
                                assert(pq_view(queue).dom() =~= mb.dom().insert(e.edges.1));
                                assert forall|v: int| 0 <= v < n
                                    && #[trigger] distance@[v] != 0
                                    implies dij_source(a, distance@, v) by {
                                    if v == t {
                                        let u2 = current as int;
                                        let k2 = k as int;
                                        assert({
                                            &&& 0 <= u2 < a.len()
                                            &&& 0 <= k2 < a[u2].len()
                                            &&& a[u2][k2].edges.0 == u2
                                            &&& a[u2][k2].edges.1 == v
                                            &&& a[u2][k2].value <= distance@[v]
                                        });
                                    } else {
                                        lemma_dij_source_stable(a, db, distance@, v);
                                    }
                                }
                                assert forall|u: int| 0 <= u < n
                                    && visited(distance@, start, u)
                                    && !pq_view(queue).dom().contains(u as usize)
                                    && u != current
                                    implies settled_ok(a, distance@, u) by {
                                    assert(u != t);
                                    assert(!mb.dom().contains(u as usize));
                                    assert(settled_ok(a, db, u));
                                    assert forall|kk: int| 0 <= kk < a[u].len()
                                        && (#[trigger] a[u][kk]).edges.0 == u
                                        && a[u][kk].edges.1 != u
                                        implies distance@[a[u][kk].edges.1 as int] != 0
                                            && distance@[a[u][kk].edges.1 as int]
                                                <= a[u][kk].value + distance@[u] by {
                                        assert(db[a[u][kk].edges.1 as int] != 0);
                                        if a[u][kk].edges.1 as int == t {
                                            assert(distance@[t] < db[t]);
                                        }
                                    }
                                }
                            }
                        }
                    }
                    k += 1;
                }
            } else {
                proof {
                    assert(a[current as int].len() == 0);
                }
            }
            proof {
                assert(settled_ok(a, distance@, current as int));
                lemma_sum_nonneg(distance@);
            }
        }
        distance
    }

    /// The number of vertices.
    pub fn len(&self) -> (n: usize)
        ensures
            n == self.vertices@.len(),
    {
        self.vertices.len()
    }

    /// True only when the graph holds no vertex at all (never the case for a
    /// graph built by `new`, which guarantees one vertex).
    pub fn is_empty(&self) -> (b: bool)
        ensures
            b == (self.vertices@.len() == 0),
    {
        self.vertices.is_empty()
    }
}

} // verus!
