//! Best-path search over a graph of 3D-positioned vertices.
//!
//! A [`Graph`] owns an ordered sequence of vertices. Each vertex holds a
//! position on an integer lattice, a list of neighbour indices into the same
//! sequence, and per-search scratch state. Two queries are offered: a
//! classical best-first scan ([`Graph::search`]) and a bounded frontier search
//! over path prefixes ([`Graph::build`]).
//!
//! Costs are squared Euclidean distances scaled by a per-vertex penalty,
//! computed in saturating 64-bit arithmetic: the value [`INFINITE_COST`]
//! plays the role of "+infinity" (no score known yet), and any cost that
//! would reach it is treated as unreachable.

use vstd::prelude::*;

verus! {

/// Cost assigned to a vertex that no path has reached yet; acts as +infinity.
pub const INFINITE_COST: u64 = u64::MAX;

/// A point on the integer lattice used for vertex positions.
#[derive(Clone, Copy, PartialEq, Eq, Structural, Debug)]
pub struct Vec3 {
    /// First coordinate.
    pub x: i32,
    /// Second coordinate.
    pub y: i32,
    /// Third coordinate.
    pub z: i32,
}

impl Vec3 {
    /// Creates a point from its three coordinates.
    pub fn new(x: i32, y: i32, z: i32) -> (v: Vec3)
        ensures
            v == (Vec3 { x, y, z }),
    {
        Vec3 { x, y, z }
    }
}

/// Clamps a mathematical cost into the representable range: anything at or
/// above [`INFINITE_COST`] is unreachable.
pub open spec fn clamp_cost(n: int) -> u64 {
    if n >= u64::MAX {
        u64::MAX
    } else {
        n as u64
    }
}

/// The exact squared Euclidean distance between two positions.
pub open spec fn sq_dist(a: Vec3, b: Vec3) -> int {
    (a.x - b.x) * (a.x - b.x) + (a.y - b.y) * (a.y - b.y) + (a.z - b.z) * (a.z - b.z)
}

/// Saturating addition of two costs.
fn cost_add(a: u64, b: u64) -> (r: u64)
    ensures
        r == clamp_cost(a + b),
{
    a.saturating_add(b)
}

/// Saturating multiplication of a cost by a penalty factor.
fn cost_scale(c: u64, penalty: u32) -> (r: u64)
    ensures
        r == clamp_cost(c * penalty),
{
    match c.checked_mul(penalty as u64) {
        Some(p) => p,
        None => u64::MAX,
    }
}

/// One squared coordinate difference, which always fits in 64 bits.
fn sq_diff(a: i32, b: i32) -> (r: u64)
    ensures
        r == (a - b) * (a - b),
{
    let d: i64 = a as i64 - b as i64;
    let m: u64 = if d < 0 {
        (-d) as u64
    } else {
        d as u64
    };
    assert(m == if a - b >= 0 { a - b } else { -(a - b) });
    assert(m <= 0xffff_ffff) by {
        assert(-0x8000_0000 <= a as int <= 0x7fff_ffff);
        assert(-0x8000_0000 <= b as int <= 0x7fff_ffff);
    }
    assert(m * m == (a - b) * (a - b) && m * m <= 0xffff_ffff * 0xffff_ffff) by (nonlinear_arith)
        requires
            m <= 0xffff_ffff,
            m == if a - b >= 0 { a - b } else { -(a - b) },
    ;
    m * m
}

/// The squared distance between two positions, clamped into the cost range.
pub fn squared_distance(a: Vec3, b: Vec3) -> (r: u64)
    ensures
        r == clamp_cost(sq_dist(a, b)),
{
    let dx = sq_diff(a.x, b.x);
    let dy = sq_diff(a.y, b.y);
    let dz = sq_diff(a.z, b.z);
    cost_add(cost_add(dx, dy), dz)
}

/// State of a vertex during a best-first search.
#[derive(Copy, Clone, PartialEq, Eq, Structural, Debug)]
pub enum PathVertexState {
    /// The vertex has not been reached yet.
    NonVisited,
    /// The vertex is in the open set, waiting to be expanded.
    Open,
    /// The vertex has been expanded.
    Closed,
}

/// A graph vertex: a position, the indices of its neighbours, and scratch
/// fields that every search rewrites.
#[derive(Clone, PartialEq, Debug)]
pub struct VertexData {
    /// Position of the vertex.
    pub position: Vec3,
    /// Indices of the neighbour vertices in the owning graph.
    pub neighbours: Vec<u32>,
    /// Search state of the vertex.
    pub state: PathVertexState,
    /// Multiplier expressing how hard it is to travel to this vertex.
    pub g_penalty: u32,
    /// Best known cumulative cost from the start vertex.
    pub g_score: u64,
    /// `g_score` plus the heuristic estimate towards the goal.
    pub f_score: u64,
    /// Index of the previous vertex on the best known path to this one.
    pub parent: Option<usize>,
}

impl VertexData {
    /// Creates a vertex at the given position with cleared scratch state and
    /// no neighbours.
    pub fn new(position: Vec3) -> (v: VertexData)
        ensures
            v.position == position,
            v.neighbours@ == Seq::<u32>::empty(),
            v.state == PathVertexState::NonVisited,
            v.g_penalty == 1u32,
            v.g_score == INFINITE_COST,
            v.f_score == INFINITE_COST,
            v.parent is None,
    {
        VertexData {
            position,
            parent: None,
            g_penalty: 1,
            g_score: u64::MAX,
            f_score: u64::MAX,
            state: PathVertexState::NonVisited,
            neighbours: Vec::new(),
        }
    }

    /// Resets the scratch fields, leaving position and adjacency alone.
    fn clear(&mut self)
        ensures
            final(self).position == old(self).position,
            final(self).neighbours@ == old(self).neighbours@,
            final(self).state == PathVertexState::NonVisited,
            final(self).g_penalty == 1u32,
            final(self).g_score == INFINITE_COST,
            final(self).f_score == INFINITE_COST,
            final(self).parent is None,
    {
        self.g_penalty = 1;
        self.g_score = u64::MAX;
        self.f_score = u64::MAX;
        self.state = PathVertexState::NonVisited;
        self.parent = None;
    }
}

impl Default for VertexData {
    /// A vertex at the origin with cleared scratch state and no neighbours.
    fn default() -> (v: VertexData)
        ensures
            v.position == (Vec3 { x: 0, y: 0, z: 0 }),
            v.neighbours@ == Seq::<u32>::empty(),
            v.state == PathVertexState::NonVisited,
            v.g_penalty == 1u32,
            v.g_score == INFINITE_COST,
            v.f_score == INFINITE_COST,
            v.parent is None,
    {
        VertexData::new(Vec3 { x: 0, y: 0, z: 0 })
    }
}

/// A graph vertex with no payload beyond its [`VertexData`]. Extra
/// per-vertex data belongs in a side table keyed by vertex index: the
/// mutation contracts state exactly how indices renumber on insertion and
/// removal, which is what such a table's owner needs to mirror.
#[derive(Clone, PartialEq, Debug)]
pub struct GraphVertex {
    /// Data of the vertex.
    pub data: VertexData,
}

impl GraphVertex {
    /// Creates a vertex at the given position.
    pub fn new(position: Vec3) -> (v: GraphVertex)
        ensures
            v.data.position == position,
            v.data.neighbours@ == Seq::<u32>::empty(),
            v.data.state == PathVertexState::NonVisited,
            v.data.g_penalty == 1u32,
            v.data.g_score == INFINITE_COST,
            v.data.f_score == INFINITE_COST,
            v.data.parent is None,
    {
        GraphVertex { data: VertexData::new(position) }
    }
}

impl Default for GraphVertex {
    /// A vertex at the origin with cleared scratch state and no neighbours.
    fn default() -> (v: GraphVertex)
        ensures
            v.data.position == (Vec3 { x: 0, y: 0, z: 0 }),
            v.data.neighbours@ == Seq::<u32>::empty(),
            v.data.state == PathVertexState::NonVisited,
            v.data.g_penalty == 1u32,
            v.data.g_score == INFINITE_COST,
            v.data.f_score == INFINITE_COST,
            v.data.parent is None,
    {
        GraphVertex { data: VertexData::new(Vec3 { x: 0, y: 0, z: 0 }) }
    }
}

/// How complete a returned path is.
#[derive(Copy, Clone, PartialEq, Eq, Structural, Debug)]
pub enum PathKind {
    /// A route from start to goal was found.
    Full,
    /// No route exists; the path is the best approximation towards the goal.
    Partial,
}

/// Why a path search failed.
#[derive(Clone, PartialEq, Eq, Structural, Debug)]
pub enum PathError {
    /// An index that names no vertex: either a query endpoint or an entry in
    /// a neighbour list encountered during the search.
    InvalidIndex(usize),
    /// A vertex that lists itself as a neighbour.
    CyclicReferenceFound(usize),
    /// The search produced no vertices at all.
    Empty,
}

/// Equality of every vertex field except the neighbour list.
pub open spec fn same_but_neighbours(a: GraphVertex, b: GraphVertex) -> bool {
    &&& a.data.position == b.data.position
    &&& a.data.state == b.data.state
    &&& a.data.g_penalty == b.data.g_penalty
    &&& a.data.g_score == b.data.g_score
    &&& a.data.f_score == b.data.f_score
    &&& a.data.parent == b.data.parent
}

/// A graph: an ordered sequence of vertices addressed by index.
#[derive(Clone, PartialEq, Debug)]
pub struct Graph {
    /// Vertices of the graph.
    pub vertices: Vec<GraphVertex>,
}

impl Graph {
    /// Number of vertices.
    pub open spec fn vertex_count(self) -> int {
        self.vertices@.len() as int
    }

    /// Neighbour list of vertex `i`.
    pub open spec fn nb(self, i: int) -> Seq<u32> {
        self.vertices@[i].data.neighbours@
    }

    /// Position of vertex `i`.
    pub open spec fn pos_of(self, i: int) -> Vec3 {
        self.vertices@[i].data.position
    }

    /// Well-formed adjacency: every neighbour index refers to a vertex.
    pub open spec fn wf(self) -> bool {
        forall|i: int, k: int|
            0 <= i < self.vertex_count() && 0 <= k < self.nb(i).len() ==> self.nb(i)[k]
                < self.vertex_count()
    }

    /// No vertex lists the same neighbour twice.
    pub open spec fn nb_nodup(self) -> bool {
        forall|i: int, k1: int, k2: int|
            0 <= i < self.vertex_count() && 0 <= k1 < k2 < self.nb(i).len() ==> self.nb(i)[k1]
                != self.nb(i)[k2]
    }

    /// No vertex lists itself as a neighbour.
    pub open spec fn no_self_loops(self) -> bool {
        forall|i: int|
            0 <= i < self.vertex_count() ==> !self.nb(i).contains(i as u32)
    }

    /// Creates an empty graph.
    pub fn new() -> (g: Graph)
        ensures
            g.vertex_count() == 0,
    {
        Graph { vertices: Vec::new() }
    }

    /// Replaces the whole vertex set. Neighbour lists are taken as given:
    /// out-of-range references are tolerated here and reported at search time.
    pub fn set_vertices(&mut self, vertices: Vec<GraphVertex>)
        ensures
            final(self).vertices@ == vertices@,
    {
        self.vertices = vertices;
    }

    /// Shared reference to the vertex at `index`, if there is one.
    pub fn vertex(&self, index: usize) -> (r: Option<&GraphVertex>)
        ensures
            match r {
                Some(v) => index < self.vertex_count() && *v == self.vertices@[index as int],
                None => index >= self.vertex_count(),
            },
    {
        if index < self.vertices.len() {
            Some(&self.vertices[index])
        } else {
            None
        }
    }

    /// Mutable reference to the vertex at `index`, if there is one.
    pub fn vertex_mut(&mut self, index: usize) -> (r: Option<&mut GraphVertex>)
        ensures
            match r {
                Some(v) => {
                    &&& index < old(self).vertex_count()
                    &&& *v == old(self).vertices@[index as int]
                    &&& final(self).vertices@ == old(self).vertices@.update(
                        index as int,
                        *final(v),
                    )
                },
                None => {
                    &&& index >= old(self).vertex_count()
                    &&& *final(self) == *old(self)
                },
            },
    {
        if index < self.vertices.len() {
            Some(&mut self.vertices[index])
        } else {
            None
        }
    }

    /// The vertices as a shared slice.
    pub fn vertices(&self) -> (r: &[GraphVertex])
        ensures
            r@ == self.vertices@,
    {
        self.vertices.as_slice()
    }

    /// The vertices as a mutable slice.
    pub fn vertices_mut(&mut self) -> (r: &mut [GraphVertex])
        ensures
            r@ == old(self).vertices@,
            final(self).vertices@ == final(r)@,
    {
        self.vertices.as_mut_slice()
    }

    /// Appends a vertex and returns its index. Existing indices are
    /// undisturbed, so no neighbour reference needs adjusting.
    pub fn add_vertex(&mut self, vertex: GraphVertex) -> (index: u32)
        requires
            old(self).vertex_count() < u32::MAX,
        ensures
            final(self).vertices@ == old(self).vertices@.push(vertex),
            index == old(self).vertex_count(),
            old(self).wf() && old(self).nb_nodup() && nb_below(
                vertex.data.neighbours@,
                old(self).vertex_count() + 1,
            ) && seq_nodup(vertex.data.neighbours@) ==> final(self).wf() && final(self).nb_nodup(),
    {
        let index = self.vertices.len();
        self.vertices.push(vertex);
        proof {
            if old(self).wf() && old(self).nb_nodup() && nb_below(
                vertex.data.neighbours@,
                old(self).vertex_count() + 1,
            ) && seq_nodup(vertex.data.neighbours@) {
                assert forall|i2: int, m: int|
                    0 <= i2 < self.vertex_count() && 0 <= m < self.nb(i2).len() implies self.nb(
                    i2,
                )[m] < self.vertex_count() by {
                    if i2 < index {
                        assert(self.vertices@[i2] == old(self).vertices@[i2]);
                        assert(old(self).nb(i2)[m] < old(self).vertex_count());
                    } else {
                        assert(self.vertices@[i2] == vertex);
                    }
                }
                assert forall|i2: int, m1: int, m2: int|
                    0 <= i2 < self.vertex_count() && 0 <= m1 < m2 < self.nb(i2).len() implies self.nb(
                    i2,
                )[m1] != self.nb(i2)[m2] by {
                    if i2 < index {
                        assert(self.vertices@[i2] == old(self).vertices@[i2]);
                        assert(old(self).nb(i2)[m1] != old(self).nb(i2)[m2]);
                    } else {
                        assert(self.vertices@[i2] == vertex);
                    }
                }
            }
        }
        index as u32
    }
}

/// Some index of `s` holds `k`, and no earlier one does.
/// `s` with every entry at or above `k` moved up by one.
pub open spec fn shift_up_from(s: Seq<u32>, k: u32) -> Seq<u32> {
    s.map_values(|n: u32| if n >= k { (n + 1) as u32 } else { n })
}

/// How one neighbour list changes when vertex `k` is removed: every entry
/// equal to `k` is deleted, and every entry above `k` slides down by one.
pub open spec fn remove_adjust(s: Seq<u32>, k: u32) -> Seq<u32>
    decreases s.len(),
{
    if s.len() == 0 {
        Seq::empty()
    } else {
        let rest = remove_adjust(s.drop_last(), k);
        if s.last() == k {
            rest
        } else if s.last() > k {
            rest.push((s.last() - 1) as u32)
        } else {
            rest.push(s.last())
        }
    }
}

/// Every entry of `s` can be shifted up without leaving `u32`.
pub open spec fn nb_shiftable(s: Seq<u32>) -> bool {
    forall|k: int| 0 <= k < s.len() ==> s[k] < u32::MAX
}

/// Every entry of `s` is below `n`.
pub open spec fn nb_below(s: Seq<u32>, n: int) -> bool {
    forall|k: int| 0 <= k < s.len() ==> s[k] < n
}

/// No entry of `s` occurs twice.
pub open spec fn seq_nodup(s: Seq<u32>) -> bool {
    forall|k1: int, k2: int| 0 <= k1 < k2 < s.len() ==> s[k1] != s[k2]
}

/// `post` is `pre` with the vertex at `index` removed and every remaining
/// neighbour list rewritten by [`remove_adjust`]; `r` is the removed vertex
/// exactly as it stood.
pub open spec fn removes_to(pre: Graph, post: Graph, r: GraphVertex, index: int) -> bool {
    &&& post.vertex_count() == pre.vertex_count() - 1
    &&& r == pre.vertices@[index]
    &&& forall|j: int|
        0 <= j < index ==> same_but_neighbours(#[trigger] post.vertices@[j], pre.vertices@[j])
            && post.nb(j) == remove_adjust(pre.nb(j), index as u32)
    &&& forall|j: int|
        index <= j < pre.vertex_count() - 1 ==> same_but_neighbours(
            #[trigger] post.vertices@[j],
            pre.vertices@[j + 1],
        ) && post.nb(j) == remove_adjust(pre.nb(j + 1), index as u32)
}

/// `post` is `pre` with `vertex` inserted at `index` exactly as given, and
/// every other neighbour list rewritten by [`shift_up_from`].
pub open spec fn inserts_to(pre: Graph, post: Graph, vertex: GraphVertex, index: int) -> bool {
    &&& post.vertex_count() == pre.vertex_count() + 1
    &&& post.vertices@[index] == vertex
    &&& forall|j: int|
        0 <= j < index ==> same_but_neighbours(#[trigger] post.vertices@[j], pre.vertices@[j])
            && post.nb(j) == shift_up_from(pre.nb(j), index as u32)
    &&& forall|j: int|
        index < j < pre.vertex_count() + 1 ==> same_but_neighbours(
            #[trigger] post.vertices@[j],
            pre.vertices@[j - 1],
        ) && post.nb(j) == shift_up_from(pre.nb(j - 1), index as u32)
}

/// Removing vertex `k` keeps a neighbour list in range: every entry equal
/// to `k` is gone and entries above `k` slide down, so nothing can point at
/// or past the removed slot. Distinct entries stay distinct, and what the
/// result holds is exactly the old entries other than `k`, renumbered.
proof fn lemma_remove_adjust_ok(s: Seq<u32>, k: u32, n: int)
    requires
        nb_below(s, n),
        k < n,
    ensures
        nb_below(remove_adjust(s, k), n - 1),
        seq_nodup(s) ==> seq_nodup(remove_adjust(s, k)),
        forall|x: u32|
            remove_adjust(s, k).contains(x) <==> ((x < k && s.contains(x)) || (x >= k && x
                < u32::MAX && s.contains((x + 1) as u32))),
    decreases s.len(),
{
    reveal_with_fuel(remove_adjust, 2);
    if s.len() > 0 {
        let sd = s.drop_last();
        let rest = remove_adjust(sd, k);
        lemma_remove_adjust_ok(sd, k, n);
        assert forall|x: u32| sd.contains(x) implies s.contains(x) by {
            let m = choose|m: int| 0 <= m < sd.len() && sd[m] == x;
            assert(s[m] == x);
        }
        assert(s.contains(s.last())) by {
            assert(s[s.len() - 1] == s.last());
        }
        if seq_nodup(s) {
            assert(seq_nodup(sd));
            assert(!sd.contains(s.last())) by {
                if sd.contains(s.last()) {
                    let m = choose|m: int| 0 <= m < sd.len() && sd[m] == s.last();
                    assert(s[m] == s[s.len() - 1]);
                }
            }
            if s.last() != k {
                let y: u32 = if s.last() > k {
                    (s.last() - 1) as u32
                } else {
                    s.last()
                };
                assert(!rest.contains(y)) by {
                    if rest.contains(y) {
                        if y >= k {
                            assert(sd.contains((y + 1) as u32));
                        } else {
                            assert(sd.contains(y));
                        }
                    }
                }
                assert forall|m1: int, m2: int|
                    0 <= m1 < m2 < remove_adjust(s, k).len() implies remove_adjust(s, k)[m1]
                    != remove_adjust(s, k)[m2] by {
                    if m2 < remove_adjust(s, k).len() - 1 {
                        assert(remove_adjust(s, k)[m1] == rest[m1]);
                        assert(remove_adjust(s, k)[m2] == rest[m2]);
                    } else {
                        assert(remove_adjust(s, k)[m1] == rest[m1]);
                        assert(rest.contains(rest[m1]));
                    }
                }
            }
        }
        assert forall|x: u32|
            remove_adjust(s, k).contains(x) implies ((x < k && s.contains(x)) || (x >= k && x
                < u32::MAX && s.contains((x + 1) as u32))) by {
            let m = choose|m: int|
                0 <= m < remove_adjust(s, k).len() && remove_adjust(s, k)[m] == x;
            if s.last() != k && m == remove_adjust(s, k).len() - 1 {
            } else {
                assert(remove_adjust(s, k)[m] == rest[m]);
                assert(rest.contains(x));
            }
        }
        assert forall|x: u32|
            ((x < k && s.contains(x)) || (x >= k && x < u32::MAX && s.contains((x + 1) as u32)))
                implies remove_adjust(s, k).contains(x) by {
            let orig: u32 = if x >= k {
                (x + 1) as u32
            } else {
                x
            };
            let m = choose|m: int| 0 <= m < s.len() && s[m] == orig;
            if m < s.len() - 1 {
                assert(sd[m] == orig);
                assert(sd.contains(orig));
                assert(rest.contains(x));
                let mr = choose|mr: int| 0 <= mr < rest.len() && rest[mr] == x;
                assert(remove_adjust(s, k)[mr] == x);
                assert(remove_adjust(s, k).contains(x));
            } else {
                assert(s.last() == orig);
                assert(remove_adjust(s, k).last() == x);
                assert(remove_adjust(s, k).contains(x));
            }
        }
    }
}

/// Shifting a list up for an insertion at `k` and then adjusting it for the
/// removal of `k` gives the original list back.
proof fn lemma_adjust_round_trip(s: Seq<u32>, k: u32)
    requires
        nb_shiftable(s),
    ensures
        remove_adjust(shift_up_from(s, k), k) == s,
    decreases s.len(),
{
    let s1 = shift_up_from(s, k);
    if s.len() == 0 {
        assert(s1 =~= Seq::<u32>::empty());
        assert(remove_adjust(s1, k) =~= s);
    } else {
        assert(nb_shiftable(s.drop_last()));
        lemma_adjust_round_trip(s.drop_last(), k);
        assert(s1.drop_last() =~= shift_up_from(s.drop_last(), k));
        assert(s1.last() == (if s.last() >= k {
            (s.last() + 1) as u32
        } else {
            s.last()
        }));
        assert(s1.last() != k);
        assert(remove_adjust(s1, k) =~= s);
    }
}

/// Inserting a vertex at `k` keeps a neighbour list in range and
/// duplicate-free: entries at or above `k` slide up.
proof fn lemma_shift_up_ok(s: Seq<u32>, k: u32, n: int)
    requires
        nb_below(s, n),
        nb_shiftable(s),
    ensures
        nb_below(shift_up_from(s, k), n + 1),
        seq_nodup(s) ==> seq_nodup(shift_up_from(s, k)),
{
    let s2 = shift_up_from(s, k);
    assert forall|m: int| 0 <= m < s2.len() implies s2[m] < n + 1 by {
        assert(s[m] < n);
    }
    if seq_nodup(s) {
        assert forall|m1: int, m2: int| 0 <= m1 < m2 < s2.len() implies s2[m1] != s2[m2] by {
            assert(s[m1] != s[m2]);
        }
    }
}

/// Inserting a vertex at `index` and then removing the vertex at `index`
/// restores the original graph: every vertex keeps its fields, and every
/// neighbour list comes back exactly as it was.
pub proof fn lemma_insert_remove_round_trip(
    pre: Graph,
    between: Graph,
    post: Graph,
    vertex: GraphVertex,
    r: GraphVertex,
    index: int,
)
    requires
        0 <= index <= pre.vertex_count(),
        forall|i: int| 0 <= i < pre.vertex_count() ==> nb_shiftable(#[trigger] pre.nb(i)),
        inserts_to(pre, between, vertex, index),
        removes_to(between, post, r, index),
    ensures
        post.vertex_count() == pre.vertex_count(),
        r == vertex,
        forall|j: int|
            0 <= j < pre.vertex_count() ==> same_but_neighbours(
                #[trigger] post.vertices@[j],
                pre.vertices@[j],
            ) && post.nb(j) == pre.nb(j),
{
    let k = index as u32;
    assert forall|j: int| 0 <= j < pre.vertex_count() implies same_but_neighbours(
        #[trigger] post.vertices@[j],
        pre.vertices@[j],
    ) && post.nb(j) == pre.nb(j) by {
        if j < index {
            assert(between.nb(j) == shift_up_from(pre.nb(j), k));
            assert(post.nb(j) == remove_adjust(between.nb(j), k));
            lemma_adjust_round_trip(pre.nb(j), k);
        } else {
            assert(between.nb(j + 1) == shift_up_from(pre.nb(j), k));
            assert(post.nb(j) == remove_adjust(between.nb(j + 1), k));
            lemma_adjust_round_trip(pre.nb(j), k);
        }
    }
}

/// Rewrites one list for the removal of vertex `k`, exactly as
/// [`remove_adjust`] describes: entries equal to `k` are deleted, entries
/// above `k` slide down.
fn adjust_for_remove(v: &mut Vec<u32>, k: u32)
    ensures
        final(v)@ == remove_adjust(old(v)@, k),
{
    let mut out: Vec<u32> = Vec::new();
    let mut i: usize = 0;
    while i < v.len()
        invariant
            0 <= i <= v@.len(),
            v@ == old(v)@,
            out@ == remove_adjust(old(v)@.subrange(0, i as int), k),
        decreases v@.len() - i,
    {
        let e = v[i];
        if e > k {
            out.push(e - 1);
        } else if e < k {
            out.push(e);
        }
        proof {
            let pre = old(v)@.subrange(0, i as int);
            let cur = old(v)@.subrange(0, i + 1);
            assert(cur.drop_last() =~= pre);
            assert(cur.last() == e);
        }
        i += 1;
    }
    proof {
        assert(old(v)@.subrange(0, old(v)@.len() as int) =~= old(v)@);
    }
    *v = out;
}

/// Slides every entry at or above `k` up by one, exactly as
/// [`shift_up_from`] describes.
fn adjust_for_insert(v: &mut Vec<u32>, k: u32)
    requires
        nb_shiftable(old(v)@),
    ensures
        final(v)@ == shift_up_from(old(v)@, k),
{
    let mut j: usize = 0;
    while j < v.len()
        invariant
            0 <= j <= v@.len(),
            v@.len() == old(v)@.len(),
            nb_shiftable(old(v)@),
            forall|m: int|
                0 <= m < j ==> v@[m] == (if old(v)@[m] >= k {
                    (old(v)@[m] + 1) as u32
                } else {
                    old(v)@[m]
                }),
            forall|m: int| j <= m < v@.len() ==> v@[m] == old(v)@[m],
        decreases v@.len() - j,
    {
        let t = v[j];
        if t >= k {
            v[j] = t + 1;
        }
        j += 1;
    }
    assert(v@ =~= shift_up_from(old(v)@, k));
}

impl Graph {
    /// Finds the vertex closest to `point` by squared distance; the first
    /// vertex wins ties. Returns nothing for an empty graph.
    pub fn get_closest_vertex_to(&self, point: Vec3) -> (r: Option<usize>)
        ensures
            match r {
                Some(c) => {
                    &&& 0 <= c < self.vertex_count()
                    &&& forall|j: int|
                        0 <= j < self.vertex_count() ==> clamp_cost(
                            sq_dist(self.pos_of(c as int), point),
                        ) <= clamp_cost(sq_dist(#[trigger] self.pos_of(j), point))
                    &&& forall|j: int|
                        0 <= j < c ==> clamp_cost(sq_dist(self.pos_of(c as int), point))
                            < clamp_cost(sq_dist(#[trigger] self.pos_of(j), point))
                },
                None => self.vertex_count() == 0,
            },
    {
        if self.vertices.is_empty() {
            return None;
        }
        let mut best: usize = 0;
        let mut best_d = squared_distance(self.vertices[0].data.position, point);
        let mut i: usize = 1;
        while i < self.vertices.len()
            invariant
                0 <= best < i <= self.vertices@.len(),
                best_d == clamp_cost(sq_dist(self.pos_of(best as int), point)),
                forall|j: int|
                    0 <= j < i ==> best_d <= clamp_cost(sq_dist(#[trigger] self.pos_of(j), point)),
                forall|j: int|
                    0 <= j < best ==> best_d < clamp_cost(sq_dist(#[trigger] self.pos_of(j), point)),
            decreases self.vertices@.len() - i,
        {
            let d = squared_distance(self.vertices[i].data.position, point);
            if d < best_d {
                best = i;
                best_d = d;
            }
            i += 1;
        }
        Some(best)
    }

    /// Creates a one-way link from `a` to `b`: `b` is appended to `a`'s
    /// neighbour list unless it is already there. A link to a vertex that
    /// does not exist yet is recorded as given; a link from one is a no-op.
    pub fn link_unidirect(&mut self, a: usize, b: usize)
        requires
            b <= u32::MAX,
        ensures
            final(self).vertices@.len() == old(self).vertex_count(),
            a >= old(self).vertex_count() ==> final(self).vertices@ == old(self).vertices@,
            a < old(self).vertex_count() && old(self).nb(a as int).contains(b as u32) ==> final(self).vertices@ == old(self).vertices@,
            a < old(self).vertex_count() && !old(self).nb(a as int).contains(b as u32) ==> {
                &&& same_but_neighbours(final(self).vertices@[a as int], old(self).vertices@[a as int])
                &&& final(self).nb(a as int) == old(self).nb(a as int).push(b as u32)
                &&& forall|j: int|
                    0 <= j < old(self).vertex_count() && j != a ==> #[trigger] final(self).vertices@[j] == old(self).vertices@[j]
            },
            old(self).wf() && old(self).nb_nodup() && b < old(self).vertex_count()
                ==> final(self).wf() && final(self).nb_nodup(),
    {
        if a < self.vertices.len() {
            let cnt = self.vertices[a].data.neighbours.len();
            let mut i: usize = 0;
            while i < cnt && self.vertices[a].data.neighbours[i] != b as u32
                invariant
                    0 <= i <= cnt,
                    a < self.vertices@.len(),
                    b <= u32::MAX,
                    cnt == self.nb(a as int).len(),
                    forall|j: int| 0 <= j < i ==> self.nb(a as int)[j] != b as u32,
                    self.vertices@ == old(self).vertices@,
                decreases cnt - i,
            {
                i += 1;
            }
            if i == cnt {
                assert(!self.nb(a as int).contains(b as u32));
                self.vertices[a].data.neighbours.push(b as u32);
                proof {
                    assert(self.vertices@.len() == old(self).vertices@.len());
                    assert(self.nb(a as int) == old(self).nb(a as int).push(b as u32));
                    assert(forall|j: int|
                        0 <= j < self.vertex_count() && j != a ==> self.vertices@[j] == old(
                            self,
                        ).vertices@[j]);
                    if old(self).wf() && old(self).nb_nodup() && b < old(self).vertex_count() {
                        assert((b as u32) < old(self).vertex_count());
                        assert forall|i2: int, m: int|
                            0 <= i2 < self.vertex_count() && 0 <= m < self.nb(i2).len()
                                implies self.nb(i2)[m] < self.vertex_count() by {
                            if i2 == a as int {
                                if m < self.nb(i2).len() - 1 {
                                    assert(self.nb(i2)[m] == old(self).nb(i2)[m]);
                                    assert(old(self).nb(i2)[m] < old(self).vertex_count());
                                } else {
                                    assert(self.nb(i2)[m] == b as u32);
                                }
                            } else {
                                assert(self.vertices@[i2] == old(self).vertices@[i2]);
                                assert(self.nb(i2)[m] == old(self).nb(i2)[m]);
                                assert(old(self).nb(i2)[m] < old(self).vertex_count());
                            }
                        }
                        assert forall|i2: int, m1: int, m2: int|
                            0 <= i2 < self.vertex_count() && 0 <= m1 < m2 < self.nb(i2).len()
                                implies self.nb(i2)[m1] != self.nb(i2)[m2] by {
                            if i2 == a as int {
                                if m2 == self.nb(i2).len() - 1 {
                                    assert(self.nb(i2)[m1] == old(self).nb(i2)[m1]);
                                    if old(self).nb(i2)[m1] == b as u32 {
                                        assert(old(self).nb(i2).contains(b as u32));
                                    }
                                } else {
                                    assert(self.nb(i2)[m1] == old(self).nb(i2)[m1]);
                                    assert(self.nb(i2)[m2] == old(self).nb(i2)[m2]);
                                    assert(old(self).nb(i2)[m1] != old(self).nb(i2)[m2]);
                                }
                            } else {
                                assert(self.vertices@[i2] == old(self).vertices@[i2]);
                                assert(self.nb(i2)[m1] == old(self).nb(i2)[m1]);
                                assert(self.nb(i2)[m2] == old(self).nb(i2)[m2]);
                                assert(old(self).nb(i2)[m1] != old(self).nb(i2)[m2]);
                            }
                        }
                    }
                }
            } else {
                assert(self.nb(a as int).contains(b as u32));
            }
        }
    }

    /// Creates links both ways between `a` and `b`, each only if not present.
    pub fn link_bidirect(&mut self, a: usize, b: usize)
        requires
            a <= u32::MAX,
            b <= u32::MAX,
        ensures
            final(self).vertices@.len() == old(self).vertex_count(),
            forall|j: int|
                0 <= j < old(self).vertex_count() && j != a && j != b ==> final(self).vertices@[j] == old(self).vertices@[j],
            forall|j: int|
                0 <= j < old(self).vertex_count() ==> same_but_neighbours(
                    #[trigger] final(self).vertices@[j],
                    old(self).vertices@[j],
                ),
            a < old(self).vertex_count() ==> final(self).nb(a as int) == (if !old(self).nb(
                a as int,
            ).contains(b as u32) {
                old(self).nb(a as int).push(b as u32)
            } else {
                old(self).nb(a as int)
            }),
            a < old(self).vertex_count() && a != b ==> final(self).nb(b as int) == (if b < old(self).vertex_count() && !old(self).nb(b as int).contains(a as u32) {
                old(self).nb(b as int).push(a as u32)
            } else if b < old(self).vertex_count() {
                old(self).nb(b as int)
            } else {
                final(self).nb(b as int)
            }),
            old(self).wf() && old(self).nb_nodup() && a < old(self).vertex_count() && b < old(
                self,
            ).vertex_count() ==> final(self).wf() && final(self).nb_nodup(),
    {
        self.link_unidirect(a, b);
        proof {
            if a == b && a < old(self).vertex_count() && !old(self).nb(a as int).contains(
                b as u32,
            ) {
                assert(self.nb(a as int).last() == b as u32);
                assert(self.nb(a as int).contains(b as u32));
            }
        }
        self.link_unidirect(b, a);
    }

    /// Removes the vertex at `index` and returns it exactly as it stood.
    /// Every remaining vertex loses all its references to `index`, and
    /// references above `index` slide down so that they keep naming the
    /// same vertices.
    pub fn remove_vertex(&mut self, index: usize) -> (r: GraphVertex)
        requires
            index < old(self).vertex_count(),
            old(self).vertex_count() <= u32::MAX,
        ensures
            removes_to(*old(self), *final(self), r, index as int),
            old(self).wf() ==> final(self).wf(),
            old(self).nb_nodup() ==> final(self).nb_nodup(),
    {
        let k = index as u32;
        let r = self.vertices.remove(index);
        let ghost mid = self.vertices@;
        let mut i: usize = 0;
        while i < self.vertices.len()
            invariant
                0 <= i <= self.vertices@.len(),
                self.vertices@.len() == mid.len(),
                forall|j: int|
                    0 <= j < i ==> same_but_neighbours(#[trigger] self.vertices@[j], mid[j])
                        && self.nb(j) == remove_adjust(mid[j].data.neighbours@, k),
                forall|j: int| i <= j < self.vertices@.len() ==> self.vertices@[j] == mid[j],
            decreases self.vertices@.len() - i,
        {
            adjust_for_remove(&mut self.vertices[i].data.neighbours, k);
            i += 1;
        }
        proof {
            let n = old(self).vertex_count();
            if old(self).wf() {
                assert forall|j: int, m: int|
                    0 <= j < self.vertex_count() && 0 <= m < self.nb(j).len() implies self.nb(
                    j,
                )[m] < self.vertex_count() by {
                    let oj = if j < index {
                        j
                    } else {
                        j + 1
                    };
                    assert(mid[j] == old(self).vertices@[oj]);
                    lemma_remove_adjust_ok(old(self).nb(oj), k, n);
                }
            }
            if old(self).nb_nodup() {
                assert forall|j: int, m1: int, m2: int|
                    0 <= j < self.vertex_count() && 0 <= m1 < m2 < self.nb(j).len() implies self.nb(
                    j,
                )[m1] != self.nb(j)[m2] by {
                    let oj = if j < index {
                        j
                    } else {
                        j + 1
                    };
                    assert(mid[j] == old(self).vertices@[oj]);
                    assert(nb_below(old(self).nb(oj), 0x1_0000_0000));
                    lemma_remove_adjust_ok(old(self).nb(oj), k, 0x1_0000_0000);
                }
            }
        }
        r
    }

    /// Removes the last vertex, if there is one, adjusting the remaining
    /// neighbour references exactly as [`Graph::remove_vertex`] does.
    pub fn pop_vertex(&mut self) -> (r: Option<GraphVertex>)
        requires
            old(self).vertex_count() <= u32::MAX,
        ensures
            old(self).vertex_count() == 0 ==> r is None && *final(self) == *old(self),
            old(self).vertex_count() > 0 ==> {
                let last = old(self).vertex_count() - 1;
                &&& r is Some
                &&& r->Some_0 == old(self).vertices@[last]
                &&& final(self).vertices@.len() == last
                &&& forall|j: int|
                    0 <= j < last ==> same_but_neighbours(
                        #[trigger] final(self).vertices@[j],
                        old(self).vertices@[j],
                    ) && final(self).nb(j) == remove_adjust(old(self).nb(j), last as u32)
            },
            old(self).wf() ==> final(self).wf(),
            old(self).nb_nodup() ==> final(self).nb_nodup(),
    {
        if self.vertices.is_empty() {
            None
        } else {
            let last = self.vertices.len() - 1;
            Some(self.remove_vertex(last))
        }
    }

    /// Inserts a vertex at `index`, exactly as given. In every other
    /// vertex's neighbour list, references at or above `index` move up by
    /// one so that they keep naming the same vertices; the inserted vertex's
    /// own list already speaks of the new numbering and is left alone.
    pub fn insert_vertex(&mut self, index: u32, vertex: GraphVertex)
        requires
            index <= old(self).vertex_count(),
            forall|i: int|
                0 <= i < old(self).vertex_count() ==> nb_shiftable(#[trigger] old(self).nb(i)),
        ensures
            inserts_to(*old(self), *final(self), vertex, index as int),
            old(self).wf() && nb_below(
                vertex.data.neighbours@,
                old(self).vertex_count() + 1,
            ) ==> final(self).wf(),
            old(self).nb_nodup() && seq_nodup(vertex.data.neighbours@) ==> final(self).nb_nodup(),
    {
        self.vertices.insert(index as usize, vertex);
        let ghost mid = self.vertices@;
        proof {
            assert forall|j: int|
                0 <= j < mid.len() && j != index implies nb_shiftable(
                #[trigger] mid[j].data.neighbours@,
            ) by {
                if j < index {
                    assert(mid[j] == old(self).vertices@[j]);
                    assert(nb_shiftable(old(self).nb(j)));
                } else {
                    assert(mid[j] == old(self).vertices@[j - 1]);
                    assert(nb_shiftable(old(self).nb(j - 1)));
                }
            }
        }
        let mut i: usize = 0;
        while i < self.vertices.len()
            invariant
                0 <= i <= self.vertices@.len(),
                index <= mid.len(),
                self.vertices@.len() == mid.len(),
                forall|j: int|
                    0 <= j < mid.len() && j != index ==> nb_shiftable(
                        #[trigger] mid[j].data.neighbours@,
                    ),
                forall|j: int|
                    0 <= j < i && j != index ==> same_but_neighbours(
                        #[trigger] self.vertices@[j],
                        mid[j],
                    ) && self.nb(j) == shift_up_from(mid[j].data.neighbours@, index),
                forall|j: int| i <= j < self.vertices@.len() ==> self.vertices@[j] == mid[j],
                index < i ==> self.vertices@[index as int] == mid[index as int],
            decreases self.vertices@.len() - i,
        {
            if i != index as usize {
                adjust_for_insert(&mut self.vertices[i].data.neighbours, index);
            }
            i += 1;
        }
        proof {
            let n = old(self).vertex_count();
            if old(self).wf() && nb_below(vertex.data.neighbours@, n + 1) {
                assert forall|j: int, m: int|
                    0 <= j < self.vertex_count() && 0 <= m < self.nb(j).len() implies self.nb(
                    j,
                )[m] < self.vertex_count() by {
                    if j < index {
                        lemma_shift_up_ok(old(self).nb(j), index, n);
                    } else if j == index {
                        assert(self.vertices@[j] == mid[j]);
                        assert(mid[j] == vertex);
                    } else {
                        lemma_shift_up_ok(old(self).nb(j - 1), index, n);
                    }
                }
            }
            if old(self).nb_nodup() && seq_nodup(vertex.data.neighbours@) {
                assert forall|j: int, m1: int, m2: int|
                    0 <= j < self.vertex_count() && 0 <= m1 < m2 < self.nb(j).len() implies self.nb(
                    j,
                )[m1] != self.nb(j)[m2] by {
                    if j < index {
                        assert(nb_below(old(self).nb(j), 0x1_0000_0000));
                        lemma_shift_up_ok(old(self).nb(j), index, 0x1_0000_0000);
                    } else if j == index {
                        assert(self.vertices@[j] == mid[j]);
                        assert(mid[j] == vertex);
                    } else {
                        assert(nb_below(old(self).nb(j - 1), 0x1_0000_0000));
                        lemma_shift_up_ok(old(self).nb(j - 1), index, 0x1_0000_0000);
                    }
                }
            }
        }
    }
}

impl Graph {
    /// Search state of vertex `i`.
    pub open spec fn st(self, i: int) -> PathVertexState {
        self.vertices@[i].data.state
    }

    /// Best known cost of vertex `i`.
    pub open spec fn gsc(self, i: int) -> u64 {
        self.vertices@[i].data.g_score
    }

    /// Frontier priority of vertex `i`.
    pub open spec fn fsc(self, i: int) -> u64 {
        self.vertices@[i].data.f_score
    }

    /// Parent back-reference of vertex `i`.
    pub open spec fn par(self, i: int) -> Option<usize> {
        self.vertices@[i].data.parent
    }

    /// A vertex is touched once a search has reached it.
    pub open spec fn touched(self, i: int) -> bool {
        self.st(i) != PathVertexState::NonVisited
    }

    /// The set of open vertices.
    pub open spec fn open_set(self) -> Set<int> {
        Set::new(|i: int| 0 <= i < self.vertex_count() && self.st(i) == PathVertexState::Open)
    }
}

/// `g2` has the same vertices as `g1`: equal positions and equal neighbour
/// lists at every index. Scratch fields may differ.
pub open spec fn same_topology(g1: Graph, g2: Graph) -> bool {
    &&& g2.vertex_count() == g1.vertex_count()
    &&& forall|j: int|
        #![trigger g2.pos_of(j)]
        #![trigger g2.nb(j)]
        #![trigger g2.vertices@[j]]
        0 <= j < g1.vertex_count() ==> g2.pos_of(j) == g1.pos_of(j) && g2.nb(j) == g1.nb(j)
}

/// `idxs` names a walk through `g` whose positions are `pts`, read back to
/// front: each entry is a neighbour of the one after it, so the walk runs
/// from the last index towards the first along graph edges.
pub open spec fn is_position_chain(g: Graph, idxs: Seq<int>, pts: Seq<Vec3>) -> bool {
    &&& idxs.len() == pts.len()
    &&& forall|m: int|
        0 <= m < idxs.len() ==> 0 <= #[trigger] idxs[m] < g.vertex_count() && pts[m] == g.pos_of(
            idxs[m],
        )
    &&& forall|m: int|
        0 <= m < idxs.len() - 1 ==> #[trigger] g.nb(idxs[m + 1]).contains(idxs[m] as u32)
}

/// No index occurs twice.
pub open spec fn distinct_indices(s: Seq<int>) -> bool {
    forall|m1: int, m2: int| 0 <= m1 < m2 < s.len() ==> s[m1] != s[m2]
}

/// Strict order on (cost, rank) pairs: lower cost wins, equal cost falls
/// back to the rank a relaxation stamped on the vertex.
pub open spec fn key_lt(g: Graph, rank: Seq<nat>, u: int, v: int) -> bool {
    g.gsc(u) < g.gsc(v) || (g.gsc(u) == g.gsc(v) && rank[u] < rank[v])
}

/// Every touched vertex other than `root` carries a parent back-reference
/// that leads to a touched neighbour-holder with a strictly smaller key, and
/// `root` alone is touched with no parent. Ranks make the order well founded,
/// so parent chains cannot cycle.
pub open spec fn parent_chains_sound(g: Graph, root: int, rank: Seq<nat>) -> bool {
    &&& 0 <= root < g.vertex_count()
    &&& rank.len() == g.vertex_count()
    &&& g.touched(root)
    &&& g.par(root) is None
    &&& forall|v: int|
        0 <= v < g.vertex_count() && #[trigger] g.touched(v) && v != root ==> {
            &&& g.par(v) is Some
            &&& 0 <= g.par(v)->Some_0 < g.vertex_count()
            &&& g.touched(g.par(v)->Some_0 as int)
            &&& g.nb(g.par(v)->Some_0 as int).contains(v as u32)
            &&& key_lt(g, rank, g.par(v)->Some_0 as int, v)
        }
}

/// The walk from `v` along parent back-references: `v` first, then its
/// parent, and so on, for as long as the vertices exist, a parent is set and
/// `fuel` steps remain.
pub open spec fn parent_chain(g: Graph, v: int, fuel: nat) -> Seq<int>
    decreases fuel,
{
    if !(0 <= v < g.vertex_count()) {
        Seq::empty()
    } else {
        match g.par(v) {
            Some(p) => if fuel > 0 {
                seq![v] + parent_chain(g, p as int, (fuel - 1) as nat)
            } else {
                seq![v]
            },
            None => seq![v],
        }
    }
}

/// Touched vertices whose key lies strictly below that of `v`.
pub open spec fn keys_below(g: Graph, rank: Seq<nat>, v: int) -> Set<int> {
    Set::new(|u: int| 0 <= u < g.vertex_count() && g.touched(u) && key_lt(g, rank, u, v))
}

/// Any set of vertex indices is finite and no larger than the vertex count.
proof fn lemma_index_set_bounds(g: Graph, s: Set<int>)
    requires
        forall|u: int| s.contains(u) ==> 0 <= u < g.vertex_count(),
    ensures
        s.finite(),
        s.len() <= g.vertex_count(),
{
    let all = vstd::set_lib::set_int_range(0, g.vertex_count());
    vstd::set_lib::lemma_int_range(0, g.vertex_count());
    assert(s.subset_of(all));
    vstd::set_lib::lemma_len_subset(s, all);
}

/// Under sound parent chains, the walk from any touched vertex ends at
/// `root`, stays inside the graph, and takes each step along a recorded
/// edge; any fuel of at least `keys_below` plus one is enough.
proof fn lemma_parent_chain_reaches_root(g: Graph, root: int, rank: Seq<nat>, v: int, fuel: nat)
    requires
        parent_chains_sound(g, root, rank),
        0 <= v < g.vertex_count(),
        g.touched(v),
        fuel >= keys_below(g, rank, v).len(),
    ensures
        ({
            let ch = parent_chain(g, v, fuel);
            &&& ch.len() >= 1
            &&& ch[0] == v
            &&& ch.last() == root
            &&& forall|m: int| 0 <= m < ch.len() ==> 0 <= #[trigger] ch[m] < g.vertex_count()
            &&& forall|m: int|
                0 <= m < ch.len() - 1 ==> #[trigger] g.nb(ch[m + 1]).contains(ch[m] as u32)
            &&& forall|m1: int, m2: int|
                0 <= m1 < m2 < ch.len() ==> key_lt(g, rank, #[trigger] ch[m2], #[trigger] ch[m1])
            &&& forall|m1: int, m2: int|
                0 <= m1 < m2 < ch.len() ==> #[trigger] ch[m1] != #[trigger] ch[m2]
        }),
    decreases keys_below(g, rank, v).len(),
{
    lemma_index_set_bounds(g, keys_below(g, rank, v));
    let ch = parent_chain(g, v, fuel);
    if v == root {
        assert(ch =~= seq![v]);
    } else {
        let p = g.par(v)->Some_0 as int;
        lemma_index_set_bounds(g, keys_below(g, rank, p));
        assert(keys_below(g, rank, p).insert(p).subset_of(keys_below(g, rank, v)));
        assert(!keys_below(g, rank, p).contains(p));
        assert(keys_below(g, rank, p).insert(p).len() == keys_below(g, rank, p).len() + 1);
        vstd::set_lib::lemma_len_subset(
            keys_below(g, rank, p).insert(p),
            keys_below(g, rank, v),
        );
        assert(keys_below(g, rank, p).len() < keys_below(g, rank, v).len());
        assert(fuel >= 1);
        lemma_parent_chain_reaches_root(g, root, rank, p, (fuel - 1) as nat);
        let chp = parent_chain(g, p, (fuel - 1) as nat);
        assert(ch == seq![v] + chp);
        assert(ch[0] == v);
        assert(ch.last() == chp.last());
        assert forall|m: int| 0 <= m < ch.len() - 1 implies #[trigger] g.nb(ch[m + 1]).contains(
            ch[m] as u32,
        ) by {
            if m == 0 {
                assert(ch[1] == chp[0] == p);
                assert(g.nb(p).contains(v as u32));
            } else {
                let mm = m - 1;
                assert(ch[m] == chp[mm] && ch[m + 1] == chp[mm + 1]);
                assert(g.nb(chp[mm + 1]).contains(chp[mm] as u32));
            }
        }
        assert forall|m1: int, m2: int| 0 <= m1 < m2 < ch.len() implies key_lt(
            g,
            rank,
            #[trigger] ch[m2],
            #[trigger] ch[m1],
        ) by {
            assert(ch[m2] == chp[m2 - 1]);
            if m1 == 0 {
                assert(key_lt(g, rank, p, v));
                if m2 > 1 {
                    assert(key_lt(g, rank, chp[m2 - 1], chp[0]));
                    assert(chp[0] == p);
                }
            } else {
                assert(ch[m1] == chp[m1 - 1]);
                assert(key_lt(g, rank, chp[m2 - 1], chp[m1 - 1]));
            }
        }
        assert forall|m1: int, m2: int| 0 <= m1 < m2 < ch.len() implies #[trigger] ch[m1]
            != #[trigger] ch[m2] by {
            assert(key_lt(g, rank, ch[m2], ch[m1]));
        }
    }
}

/// `p` is a walk through `g`: at least one vertex, each within the graph,
/// and each next vertex recorded as a neighbour of the one before it.
pub open spec fn is_walk(g: Graph, p: Seq<int>) -> bool {
    &&& p.len() >= 1
    &&& forall|m: int| 0 <= m < p.len() ==> 0 <= #[trigger] p[m] < g.vertex_count()
    &&& forall|m: int| 0 <= m < p.len() - 1 ==> g.nb(#[trigger] p[m]).contains(p[m + 1] as u32)
}

/// Vertex `b` can be reached from vertex `a` along recorded edges.
pub open spec fn reachable(g: Graph, a: int, b: int) -> bool {
    exists|p: Seq<int>| is_walk(g, p) && p[0] == a && p.last() == b
}

/// Every vertex reaches itself.
pub proof fn lemma_reachable_refl(g: Graph, a: int)
    requires
        0 <= a < g.vertex_count(),
    ensures
        reachable(g, a, a),
{
    let p = seq![a];
    assert(is_walk(g, p));
    assert(p[0] == a && p.last() == a);
}

/// Reachability extends along one recorded edge.
pub proof fn lemma_reachable_step(g: Graph, a: int, b: int, c: int)
    requires
        reachable(g, a, b),
        0 <= c < g.vertex_count(),
        g.nb(b).contains(c as u32),
        c <= u32::MAX,
    ensures
        reachable(g, a, c),
{
    let p = choose|p: Seq<int>| is_walk(g, p) && p[0] == a && p.last() == b;
    let q = p.push(c);
    assert(q.last() == c);
    assert(is_walk(g, q)) by {
        assert forall|m: int| 0 <= m < q.len() implies 0 <= #[trigger] q[m] < g.vertex_count() by {
            if m < p.len() {
                assert(q[m] == p[m]);
            }
        }
        assert forall|m: int| 0 <= m < q.len() - 1 implies g.nb(#[trigger] q[m]).contains(
            q[m + 1] as u32,
        ) by {
            if m < p.len() - 1 {
                assert(q[m] == p[m] && q[m + 1] == p[m + 1]);
                assert(g.nb(p[m]).contains(p[m + 1] as u32));
            } else {
                assert(q[m] == p.last() == b && q[m + 1] == c);
            }
        }
    }
    assert(q[0] == a);
}

/// The far end of a returned path never leaves the region reachable from
/// the vertex the walk is rooted at: a position chain read back to front is
/// a walk, so its first index is reachable from its last.
pub proof fn lemma_chain_reachable(g: Graph, idxs: Seq<int>, pts: Seq<Vec3>)
    requires
        is_position_chain(g, idxs, pts),
        idxs.len() >= 1,
    ensures
        reachable(g, idxs.last(), idxs[0]),
{
    let n = idxs.len();
    let q = Seq::new(n as nat, |m: int| idxs[n - 1 - m]);
    assert(is_walk(g, q)) by {
        assert forall|m: int| 0 <= m < q.len() implies 0 <= #[trigger] q[m] < g.vertex_count() by {
            assert(q[m] == idxs[n - 1 - m]);
        }
        assert forall|m: int| 0 <= m < q.len() - 1 implies g.nb(#[trigger] q[m]).contains(
            q[m + 1] as u32,
        ) by {
            let mm = n - 2 - m;
            assert(q[m] == idxs[mm + 1] && q[m + 1] == idxs[mm]);
            assert(g.nb(idxs[mm + 1]).contains(idxs[mm] as u32));
        }
    }
    assert(q[0] == idxs.last() && q.last() == idxs[0]);
}

/// Every recorded edge of `g` has a squared length of at most `w`.
pub open spec fn edge_costs_bounded(g: Graph, w: int) -> bool {
    forall|a: int, m: int|
        0 <= a < g.vertex_count() && 0 <= m < g.nb(a).len() ==> sq_dist(
            g.pos_of(a),
            g.pos_of((#[trigger] g.nb(a)[m]) as int),
        ) <= w
}

/// Every vertex's heuristic estimate towards `to` is at most `hb`.
pub open spec fn heur_bounded(g: Graph, to: int, hb: int) -> bool {
    forall|v: int|
        0 <= v < g.vertex_count() ==> sq_dist(#[trigger] g.pos_of(v), g.pos_of(to)) <= hb
}

/// Every vertex still carries the default traversal penalty.
pub open spec fn penalties_unit(g: Graph) -> bool {
    forall|v: int|
        0 <= v < g.vertex_count() ==> #[trigger] g.vertices@[v].data.g_penalty == 1u32
}

/// The vertices a search has reached.
pub open spec fn touched_set(g: Graph) -> Set<int> {
    Set::new(|i: int| 0 <= i < g.vertex_count() && g.touched(i))
}

/// A squared distance is never negative.
proof fn lemma_sq_dist_nonneg(a: Vec3, b: Vec3)
    ensures
        sq_dist(a, b) >= 0,
{
    assert((a.x - b.x) * (a.x - b.x) >= 0 && (a.y - b.y) * (a.y - b.y) >= 0 && (a.z - b.z) * (a.z
        - b.z) >= 0) by (nonlinear_arith);
}

/// A finite set holding an element has at least one element.
proof fn lemma_set_contains_len<A>(s: Set<A>, x: A)
    requires
        s.finite(),
        s.contains(x),
    ensures
        s.len() >= 1,
{
    vstd::set::axiom_set_remove_len(s, x);
}

/// Every expanded vertex hands each of its neighbour entries on as touched.
spec fn closed_expanded(g: Graph) -> bool {
    forall|v: int, m: int|
        0 <= v < g.vertex_count() && g.vertices@[v].data.state == PathVertexState::Closed && 0 <= m
            < g.vertices@[v].data.neighbours@.len() ==> g.touched(
            (#[trigger] g.vertices@[v].data.neighbours@[m]) as int,
        )
}

/// As [`closed_expanded`], except for the vertex under expansion.
spec fn closed_expanded_except(g: Graph, ex: int) -> bool {
    forall|v: int, m: int|
        0 <= v < g.vertex_count() && v != ex && g.vertices@[v].data.state
            == PathVertexState::Closed && 0 <= m < g.vertices@[v].data.neighbours@.len()
            ==> g.touched((#[trigger] g.vertices@[v].data.neighbours@[m]) as int)
}

/// No expanded vertex lists itself.
spec fn closed_no_self(g: Graph) -> bool {
    forall|v: int|
        0 <= v < g.vertex_count() && g.vertices@[v].data.state == PathVertexState::Closed ==> !(
        #[trigger] g.vertices@[v].data.neighbours@).contains(v as u32)
}

/// As [`closed_no_self`], except for the vertex under expansion.
spec fn closed_no_self_except(g: Graph, ex: int) -> bool {
    forall|v: int|
        0 <= v < g.vertex_count() && v != ex && g.vertices@[v].data.state
            == PathVertexState::Closed ==> !(#[trigger] g.vertices@[v].data.neighbours@).contains(
            v as u32,
        )
}

/// Touched costs stay below the budget that `w` allows: each is at most one
/// step per other touched vertex.
spec fn g_scores_bounded(g: Graph, w: int) -> bool {
    forall|v: int|
        0 <= v < g.vertex_count() && g.touched(v) ==> (
        #[trigger] g.vertices@[v].data.g_score) as int <= (touched_set(g).len() - 1) * w
}

/// When no vertex is open any more and every expanded vertex handed its
/// neighbours on, the touched region is closed under edges: everything
/// reachable from a touched vertex along a walk is touched.
proof fn lemma_walk_touched(g: Graph, g0: Graph, p: Seq<int>, m: int)
    requires
        same_topology(g0, g),
        g0.vertex_count() <= u32::MAX,
        forall|j: int| 0 <= j < g.vertex_count() ==> g.st(j) != PathVertexState::Open,
        closed_expanded(g),
        is_walk(g0, p),
        g.touched(p[0]),
        0 <= m < p.len(),
    ensures
        g.touched(p[m]),
    decreases m,
{
    if m > 0 {
        lemma_walk_touched(g, g0, p, m - 1);
        let v = p[m - 1];
        assert(0 <= v < g0.vertex_count());
        assert(g.touched(v));
        assert(g.st(v) != PathVertexState::Open);
        assert(g.vertices@[v].data.state == PathVertexState::Closed);
        assert(g0.nb(v).contains(p[m] as u32));
        let mi = choose|mi: int| 0 <= mi < g0.nb(v).len() && g0.nb(v)[mi] == p[m] as u32;
        assert(g.nb(v) == g0.nb(v));
        assert(g.vertices@[v].data.neighbours@[mi] == p[m] as u32);
        assert(g.touched((p[m] as u32) as int));
        assert(0 <= p[m] < g0.vertex_count() <= u32::MAX);
        assert((p[m] as u32) as int == p[m]);
    }
}

/// Sum of all best-known costs; it shrinks with every relaxation, which is
/// what bounds the search loop.
pub open spec fn sum_g(s: Seq<GraphVertex>) -> int
    decreases s.len(),
{
    if s.len() == 0 {
        0
    } else {
        sum_g(s.drop_last()) + s.last().data.g_score
    }
}

proof fn lemma_sum_g_nonneg(s: Seq<GraphVertex>)
    ensures
        sum_g(s) >= 0,
    decreases s.len(),
{
    if s.len() > 0 {
        lemma_sum_g_nonneg(s.drop_last());
    }
}

proof fn lemma_sum_g_update(s: Seq<GraphVertex>, i: int, v: GraphVertex)
    requires
        0 <= i < s.len(),
    ensures
        sum_g(s.update(i, v)) == sum_g(s) - s[i].data.g_score + v.data.g_score,
    decreases s.len(),
{
    let su = s.update(i, v);
    if i == s.len() - 1 {
        assert(su.drop_last() =~= s.drop_last());
        assert(su.last() == v);
    } else {
        assert(su.drop_last() =~= s.drop_last().update(i, v));
        assert(su.last() == s.last());
        lemma_sum_g_update(s.drop_last(), i, v);
    }
}

/// The running state of a best-first scan: the topology is untouched, the
/// start vertex is touched at cost zero with no parent, parent chains are
/// sound with `from` as their root, ranks are fresh below `next_rank`, and
/// untouched vertices still carry an infinite cost.
pub open spec fn search_inv(g: Graph, g0: Graph, from: int, rank: Seq<nat>, next_rank: nat) -> bool {
    &&& same_topology(g0, g)
    &&& g.gsc(from) == 0
    &&& parent_chains_sound(g, from, rank)
    &&& forall|v: int| 0 <= v < g.vertex_count() ==> #[trigger] rank[v] < next_rank
    &&& forall|v: int|
        0 <= v < g.vertex_count() && !(#[trigger] g.touched(v)) ==> g.gsc(v) == INFINITE_COST
}

impl Graph {
    /// Resets every vertex's scratch fields, leaving the topology alone.
    fn reset_scratch(&mut self)
        ensures
            same_topology(*old(self), *final(self)),
            forall|j: int|
                0 <= j < old(self).vertex_count() ==> {
                    &&& #[trigger] final(self).vertices@[j].data.state
                        == PathVertexState::NonVisited
                    &&& final(self).vertices@[j].data.g_score == INFINITE_COST
                    &&& final(self).vertices@[j].data.f_score == INFINITE_COST
                    &&& final(self).vertices@[j].data.parent is None
                    &&& final(self).vertices@[j].data.g_penalty == 1u32
                },
    {
        let mut i: usize = 0;
        while i < self.vertices.len()
            invariant
                0 <= i <= self.vertices@.len(),
                self.vertices@.len() == old(self).vertices@.len(),
                forall|j: int|
                    0 <= j < i ==> #[trigger] self.vertices@[j].data.position == old(
                        self,
                    ).vertices@[j].data.position,
                forall|j: int|
                    0 <= j < i ==> #[trigger] self.vertices@[j].data.neighbours@ == old(
                        self,
                    ).vertices@[j].data.neighbours@,
                forall|j: int|
                    0 <= j < i ==> #[trigger] self.vertices@[j].data.state
                        == PathVertexState::NonVisited,
                forall|j: int| 0 <= j < i ==> #[trigger] self.vertices@[j].data.g_score == INFINITE_COST,
                forall|j: int| 0 <= j < i ==> #[trigger] self.vertices@[j].data.f_score == INFINITE_COST,
                forall|j: int| 0 <= j < i ==> #[trigger] self.vertices@[j].data.parent is None,
                forall|j: int| 0 <= j < i ==> #[trigger] self.vertices@[j].data.g_penalty == 1u32,
                forall|j: int|
                    i <= j < self.vertices@.len() ==> self.vertices@[j] == old(self).vertices@[j],
            decreases self.vertices@.len() - i,
        {
            self.vertices[i].data.clear();
            i += 1;
        }
    }

    /// Scans for the open vertex with the lowest frontier priority. The
    /// first such vertex wins ties. Returns nothing when no vertex is open.
    fn select_open_min(&self) -> (r: Option<usize>)
        ensures
            match r {
                Some(c) => {
                    &&& 0 <= c < self.vertex_count()
                    &&& self.st(c as int) == PathVertexState::Open
                    &&& forall|j: int|
                        0 <= j < self.vertex_count() && self.st(j) == PathVertexState::Open
                            ==> self.fsc(c as int) <= #[trigger] self.fsc(j)
                },
                None => forall|j: int|
                    0 <= j < self.vertex_count() ==> self.st(j) != PathVertexState::Open,
            },
    {
        let mut best: Option<usize> = None;
        let mut i: usize = 0;
        while i < self.vertices.len()
            invariant
                0 <= i <= self.vertices@.len(),
                match best {
                    Some(c) => {
                        &&& 0 <= c < self.vertex_count()
                        &&& self.st(c as int) == PathVertexState::Open
                        &&& forall|j: int|
                            0 <= j < i && self.st(j) == PathVertexState::Open ==> self.fsc(
                                c as int,
                            ) <= #[trigger] self.fsc(j)
                    },
                    None => forall|j: int| 0 <= j < i ==> self.st(j) != PathVertexState::Open,
                },
            decreases self.vertices@.len() - i,
        {
            if self.vertices[i].data.state == PathVertexState::Open {
                match best {
                    Some(c) => {
                        if self.vertices[i].data.f_score < self.vertices[c].data.f_score {
                            best = Some(i);
                        }
                    },
                    None => {
                        best = Some(i);
                    },
                }
            }
            i += 1;
        }
        best
    }

    /// Scans for the touched vertex with the lowest frontier priority. The
    /// first such vertex wins ties.
    fn min_f_touched(&self) -> (r: usize)
        requires
            exists|j: int| 0 <= j < self.vertex_count() && self.touched(j),
        ensures
            0 <= r < self.vertex_count(),
            self.touched(r as int),
            forall|j: int|
                0 <= j < self.vertex_count() && self.touched(j) ==> self.fsc(r as int)
                    <= #[trigger] self.fsc(j),
    {
        let mut best: Option<usize> = None;
        let mut i: usize = 0;
        while i < self.vertices.len()
            invariant
                0 <= i <= self.vertices@.len(),
                match best {
                    Some(c) => {
                        &&& 0 <= c < self.vertex_count()
                        &&& self.touched(c as int)
                        &&& forall|j: int|
                            0 <= j < i && self.touched(j) ==> self.fsc(c as int)
                                <= #[trigger] self.fsc(j)
                    },
                    None => forall|j: int| 0 <= j < i ==> !self.touched(j),
                },
            decreases self.vertices@.len() - i,
        {
            if !(self.vertices[i].data.state == PathVertexState::NonVisited) {
                match best {
                    Some(c) => {
                        if self.vertices[i].data.f_score < self.vertices[c].data.f_score {
                            best = Some(i);
                        }
                    },
                    None => {
                        best = Some(i);
                    },
                }
            }
            i += 1;
        }
        match best {
            Some(c) => c,
            None => {
                proof {
                    let w = choose|j: int| 0 <= j < self.vertex_count() && self.touched(j);
                    assert(!self.touched(w));
                }
                0
            },
        }
    }

    /// Walks the parent back-references from `from_index` and appends the
    /// position of every vertex on the walk to `path`, nearest first. The
    /// walk stops at a vertex with no parent, at a reference that leaves the
    /// graph, or after as many steps as the graph has vertices.
    pub fn reconstruct_path(&self, from_index: usize, path: &mut Vec<Vec3>)
        ensures
            ({
                let ch = parent_chain(*self, from_index as int, self.vertex_count() as nat);
                &&& final(path)@.len() == old(path)@.len() + ch.len()
                &&& forall|m: int| 0 <= m < old(path)@.len() ==> final(path)@[m] == old(path)@[m]
                &&& forall|m: int|
                    0 <= m < ch.len() ==> final(path)@[old(path)@.len() + m] == self.pos_of(ch[m])
            }),
    {
        let ghost full_chain = parent_chain(*self, from_index as int, self.vertex_count() as nat);
        let mut current = from_index;
        let mut fuel = self.vertices.len();
        let ghost mut idxs: Seq<int> = Seq::empty();
        loop
            invariant_except_break
                0 <= fuel <= self.vertex_count(),
                full_chain == idxs + parent_chain(*self, current as int, fuel as nat),
                path@.len() == old(path)@.len() + idxs.len(),
                forall|m: int| 0 <= m < old(path)@.len() ==> path@[m] == old(path)@[m],
                forall|m: int|
                    0 <= m < idxs.len() ==> path@[old(path)@.len() + m] == self.pos_of(idxs[m]),
            ensures
                idxs == full_chain,
                path@.len() == old(path)@.len() + idxs.len(),
                forall|m: int| 0 <= m < old(path)@.len() ==> path@[m] == old(path)@[m],
                forall|m: int|
                    0 <= m < idxs.len() ==> path@[old(path)@.len() + m] == self.pos_of(idxs[m]),
            decreases fuel,
        {
            if current >= self.vertices.len() {
                proof {
                    assert(parent_chain(*self, current as int, fuel as nat) =~= Seq::empty());
                    assert(full_chain =~= idxs);
                }
                break;
            }
            path.push(self.vertices[current].data.position);
            proof {
                idxs = idxs.push(current as int);
            }
            let parent = self.vertices[current].data.parent;
            match parent {
                Some(p) => {
                    if fuel == 0 {
                        proof {
                            assert(parent_chain(*self, current as int, 0nat) =~= seq![
                                current as int,
                            ]);
                            assert(full_chain =~= idxs);
                        }
                        break;
                    }
                    proof {
                        assert(parent_chain(*self, current as int, fuel as nat) =~= seq![
                            current as int,
                        ] + parent_chain(*self, p as int, (fuel - 1) as nat));
                        assert(full_chain =~= idxs + parent_chain(
                            *self,
                            p as int,
                            (fuel - 1) as nat,
                        ));
                    }
                    fuel -= 1;
                    current = p;
                },
                None => {
                    proof {
                        assert(parent_chain(*self, current as int, fuel as nat) =~= seq![
                            current as int,
                        ]);
                        assert(full_chain =~= idxs);
                    }
                    break;
                },
            }
        }
    }
}

impl Graph {
    /// Classical best-first search from `from` towards `to`.
    ///
    /// Every vertex's scratch fields are rewritten. The waypoints are written
    /// to `path` goal end first: the sequence runs from the reached vertex
    /// back to `from` along recorded edges. `Full` means the goal itself was
    /// reached; `Partial` means the open set ran dry first and the path leads
    /// to the most promising touched vertex. An empty graph yields `Partial`
    /// with an empty path. `InvalidIndex` reports an out-of-range index,
    /// whether it came from the query or from a neighbour list;
    /// `CyclicReferenceFound` reports a vertex that lists itself and was
    /// reached by the scan.
    pub fn search(&mut self, from: usize, to: usize, path: &mut Vec<Vec3>) -> (r: Result<
        PathKind,
        PathError,
    >)
        ensures
            same_topology(*old(self), *final(self)),
            old(self).vertex_count() == 0 ==> (r matches Ok(k) && k == PathKind::Partial)
                && final(path)@ == Seq::<Vec3>::empty(),
            old(self).vertex_count() > 0 && to >= old(self).vertex_count() ==> (r matches Err(e)
                && e == (PathError::InvalidIndex(to))),
            old(self).vertex_count() > 0 && to < old(self).vertex_count() && from >= old(
                self,
            ).vertex_count() ==> (r matches Err(e) && e == (PathError::InvalidIndex(from))),
            r matches Err(PathError::InvalidIndex(i)) ==> i >= old(self).vertex_count(),
            r matches Err(PathError::CyclicReferenceFound(i)) ==> 0 <= i < old(
                self,
            ).vertex_count() && old(self).nb(i as int).contains(i as u32) && from < old(
                self,
            ).vertex_count() && reachable(*old(self), from as int, i as int),
            old(self).wf() && old(self).no_self_loops() && from < old(self).vertex_count() && to
                < old(self).vertex_count() ==> r is Ok,
            r is Ok && old(self).vertex_count() > 0 ==> final(path)@.len() >= 1
                && exists|idxs: Seq<int>|
                {
                    &&& #[trigger] is_position_chain(*old(self), idxs, final(path)@)
                    &&& idxs.last() == from
                    &&& distinct_indices(idxs)
                    &&& forall|m: int|
                        0 <= m < idxs.len() - 1 ==> final(self).gsc(#[trigger] idxs[m + 1])
                            <= final(self).gsc(idxs[m])
                    &&& (r matches Ok(k) && k == PathKind::Full ==> idxs[0] == to)
                    &&& (r matches Ok(k) && k == PathKind::Partial ==> final(self).touched(idxs[0])
                        && forall|j: int|
                        0 <= j < old(self).vertex_count() && final(self).touched(j)
                            ==> final(self).fsc(idxs[0]) <= #[trigger] final(self).fsc(j))
                },
            r is Ok && old(self).vertex_count() > 0 ==> final(path)@.last() == old(self).pos_of(
                from as int,
            ),
            (r matches Ok(k) && k == PathKind::Full) && old(self).vertex_count() > 0
                ==> final(path)@[0] == old(self).pos_of(to as int),
            (r matches Ok(k) && k == PathKind::Full) && old(self).vertex_count() > 0
                ==> reachable(*old(self), from as int, to as int),
            forall|w: int|
                (old(self).wf() && old(self).no_self_loops() && from < old(self).vertex_count()
                    && to < old(self).vertex_count() && old(self).vertex_count() <= u32::MAX && (
                #[trigger] edge_costs_bounded(*old(self), w)) && old(self).vertex_count() * w
                    < u64::MAX && reachable(*old(self), from as int, to as int)) ==> (r matches Ok(
                    k,
                ) && k == PathKind::Full),
            forall|w: int|
                (old(self).wf() && from < old(self).vertex_count() && to < old(
                    self,
                ).vertex_count() && old(self).vertex_count() <= u32::MAX && (
                #[trigger] edge_costs_bounded(*old(self), w)) && old(self).vertex_count() * w
                    < u64::MAX && !reachable(*old(self), from as int, to as int) && (exists|v: int|
                    0 <= v < old(self).vertex_count() && reachable(*old(self), from as int, v)
                        && old(self).nb(v).contains(v as u32))) ==> (r matches Err(
                    PathError::CyclicReferenceFound(_),
                )),
            r is Err ==> final(path)@ == Seq::<Vec3>::empty(),
    {
        path.clear();
        if self.vertices.is_empty() {
            return Ok(PathKind::Partial);
        }
        self.reset_scratch();
        if to >= self.vertices.len() {
            return Err(PathError::InvalidIndex(to));
        }
        let end_pos = self.vertices[to].data.position;
        if from >= self.vertices.len() {
            return Err(PathError::InvalidIndex(from));
        }
        let start_pos = self.vertices[from].data.position;
        let h0 = squared_distance(start_pos, end_pos);
        let ghost g_reset = *self;
        self.vertices[from].data.state = PathVertexState::Open;
        self.vertices[from].data.g_score = 0;
        self.vertices[from].data.f_score = h0;
        let ghost mut rank: Seq<nat> = Seq::new(self.vertices@.len() as nat, |i: int| 0nat);
        let ghost mut next_rank: nat = 1nat;
        proof {
            assert(self.vertices@ =~= g_reset.vertices@.update(
                from as int,
                self.vertices@[from as int],
            ));
            assert forall|v: int|
                0 <= v < self.vertex_count() && #[trigger] self.touched(v) && v != from
                    implies false by {
                assert(self.vertices@[v] == g_reset.vertices@[v]);
                assert(self.vertices@[v].data.state == PathVertexState::NonVisited);
            }
            assert forall|j: int|
                #![trigger self.pos_of(j)]
                #![trigger self.nb(j)]
                #![trigger self.vertices@[j]]
                0 <= j < self.vertex_count() implies self.pos_of(j) == old(self).pos_of(j)
                && self.nb(j) == old(self).nb(j) by {
                if j != from {
                    assert(self.vertices@[j] == g_reset.vertices@[j]);
                }
                assert(g_reset.pos_of(j) == old(self).pos_of(j));
                assert(g_reset.nb(j) == old(self).nb(j));
            }
            assert forall|v: int|
                0 <= v < self.vertex_count() && !(#[trigger] self.touched(v))
                    implies self.gsc(v) == INFINITE_COST by {
                assert(self.vertices@[v] == g_reset.vertices@[v]);
            }
            assert(same_topology(*old(self), *self));
            assert(self.gsc(from as int) == 0);
            assert(g_reset.vertices@[from as int].data.state == PathVertexState::NonVisited);
            assert(self.touched(from as int));
            assert(self.par(from as int) is None);
            assert(parent_chains_sound(*self, from as int, rank));
            assert(forall|v: int| 0 <= v < self.vertex_count() ==> #[trigger] rank[v] < next_rank);
            assert(search_inv(*self, *old(self), from as int, rank, next_rank));
            lemma_reachable_refl(*old(self), from as int);
            assert forall|v: int|
                0 <= v < self.vertex_count() && #[trigger] self.touched(v) implies reachable(
                *old(self),
                from as int,
                v,
            ) by {
                if v != from {
                    assert(self.vertices@[v] == g_reset.vertices@[v]);
                    assert(self.vertices@[v].data.state == PathVertexState::NonVisited);
                }
            }
            assert forall|v: int|
                0 <= v < self.vertex_count() implies #[trigger] self.vertices@[v].data.g_penalty
                == 1u32 by {
                if v != from {
                    assert(self.vertices@[v] == g_reset.vertices@[v]);
                    assert(g_reset.vertices@[v].data.state == PathVertexState::NonVisited);
                } else {
                    assert(g_reset.vertices@[v].data.state == PathVertexState::NonVisited);
                    assert(g_reset.vertices@[v].data.g_penalty == 1u32);
                    assert(self.vertices@[v].data.g_penalty
                        == g_reset.vertices@[v].data.g_penalty);
                }
            }
            assert forall|v: int|
                0 <= v < self.vertex_count() implies self.vertices@[v].data.state
                != PathVertexState::Closed by {
                if v != from {
                    assert(self.vertices@[v] == g_reset.vertices@[v]);
                }
            }
            assert(closed_expanded(*self));
            assert(closed_no_self(*self));
            assert(touched_set(*self) =~= Set::<int>::empty().insert(from as int));
            assert(touched_set(*self).len() == 1);
            assert forall|w: int|
                (#[trigger] edge_costs_bounded(*old(self), w)) && old(self).vertex_count() * w
                    < u64::MAX implies g_scores_bounded(*self, w) by {
                assert forall|v: int|
                    0 <= v < self.vertex_count() && self.touched(v) implies (
                #[trigger] self.vertices@[v].data.g_score) as int <= (touched_set(*self).len() - 1)
                    * w by {
                    assert(v == from as int);
                    assert((touched_set(*self).len() - 1) * w == 0) by (nonlinear_arith)
                        requires touched_set(*self).len() == 1;
                }
            }
        }
        loop
            invariant_except_break
                search_inv(*self, *old(self), from as int, rank, next_rank),
                0 <= from < self.vertex_count(),
                0 <= to < self.vertex_count(),
                old(self).vertex_count() == self.vertex_count(),
                path@ == Seq::<Vec3>::empty(),
                self.vertices@[to as int].data.state != PathVertexState::Closed,
                forall|v: int|
                    0 <= v < self.vertex_count() && #[trigger] self.touched(v) ==> reachable(
                        *old(self),
                        from as int,
                        v,
                    ),
                forall|v: int|
                    0 <= v < self.vertex_count() ==> #[trigger] self.vertices@[v].data.g_penalty
                        == 1u32,
                forall|w: int|
                    (#[trigger] edge_costs_bounded(*old(self), w)) && old(self).vertex_count() * w
                        < u64::MAX ==> g_scores_bounded(*self, w),
                forall|w: int|
                    (#[trigger] edge_costs_bounded(*old(self), w)) && old(self).vertex_count() * w
                        < u64::MAX && old(self).wf() ==> closed_expanded(*self),
                old(self).vertex_count() <= u32::MAX ==> closed_no_self(*self),
            ensures
                search_inv(*self, *old(self), from as int, rank, next_rank),
                0 <= from < self.vertex_count(),
                0 <= to < self.vertex_count(),
                old(self).vertex_count() == self.vertex_count(),
                path@ == Seq::<Vec3>::empty(),
                self.vertices@[to as int].data.state != PathVertexState::Closed,
                forall|v: int|
                    0 <= v < self.vertex_count() && #[trigger] self.touched(v) ==> reachable(
                        *old(self),
                        from as int,
                        v,
                    ),
                forall|v: int|
                    0 <= v < self.vertex_count() ==> #[trigger] self.vertices@[v].data.g_penalty
                        == 1u32,
                forall|w: int|
                    (#[trigger] edge_costs_bounded(*old(self), w)) && old(self).vertex_count() * w
                        < u64::MAX ==> g_scores_bounded(*self, w),
                forall|w: int|
                    (#[trigger] edge_costs_bounded(*old(self), w)) && old(self).vertex_count() * w
                        < u64::MAX && old(self).wf() ==> closed_expanded(*self),
                old(self).vertex_count() <= u32::MAX ==> closed_no_self(*self),
                forall|j: int|
                    0 <= j < self.vertex_count() ==> self.st(j) != PathVertexState::Open,
            decreases sum_g(self.vertices@), self.open_set().len(),
        {
            let ghost sum0 = sum_g(self.vertices@);
            let ghost open0 = self.open_set();
            proof {
                lemma_sum_g_nonneg(self.vertices@);
            }
            let sel = self.select_open_min();
            let current_index = match sel {
                Some(c) => c,
                None => { break },
            };
            proof {
                assert(open0.contains(current_index as int));
            }
            if current_index == to {
                proof {
                    lemma_index_set_bounds(*self, keys_below(*self, rank, to as int));
                    lemma_parent_chain_reaches_root(
                        *self,
                        from as int,
                        rank,
                        to as int,
                        self.vertex_count() as nat,
                    );
                }
                self.reconstruct_path(to, path);
                proof {
                    let ch = parent_chain(*self, to as int, self.vertex_count() as nat);
                    assert forall|m: int| 0 <= m < ch.len() - 1 implies #[trigger] old(self).nb(
                        ch[m + 1],
                    ).contains(ch[m] as u32) by {
                        assert(self.nb(ch[m + 1]).contains(ch[m] as u32));
                        assert(old(self).nb(ch[m + 1]) == self.nb(ch[m + 1]));
                    }
                    assert forall|m: int| 0 <= m < ch.len() implies path@[m] == old(self).pos_of(
                        #[trigger] ch[m],
                    ) by {
                        assert(path@[0 + m] == self.pos_of(ch[m]));
                        assert(old(self).pos_of(ch[m]) == self.pos_of(ch[m]));
                    }
                    assert(is_position_chain(*old(self), ch, path@));
                    assert(distinct_indices(ch));
                    assert forall|m: int| 0 <= m < ch.len() - 1 implies self.gsc(
                        #[trigger] ch[m + 1],
                    ) <= self.gsc(ch[m]) by {
                        assert(key_lt(*self, rank, ch[m + 1], ch[m]));
                    }
                    assert(self.touched(to as int));
                    assert(reachable(*old(self), from as int, to as int));
                }
                return Ok(PathKind::Full);
            }
            let ghost g_sel = *self;
            self.vertices[current_index].data.state = PathVertexState::Closed;
            proof {
                let cur_i = current_index as int;
                assert(self.vertices@ =~= g_sel.vertices@.update(cur_i, self.vertices@[cur_i]));
                lemma_sum_g_update(g_sel.vertices@, cur_i, self.vertices@[cur_i]);
                assert(sum_g(self.vertices@) == sum0);
                assert(self.open_set() =~= open0.remove(cur_i));
                assert forall|j: int|
                    #![trigger self.pos_of(j)]
                    #![trigger self.nb(j)]
                    #![trigger self.vertices@[j]]
                    0 <= j < self.vertex_count() implies self.pos_of(j) == old(self).pos_of(j)
                    && self.nb(j) == old(self).nb(j) by {
                    if j != cur_i {
                        assert(self.vertices@[j] == g_sel.vertices@[j]);
                    }
                    assert(g_sel.pos_of(j) == old(self).pos_of(j));
                    assert(g_sel.nb(j) == old(self).nb(j));
                }
                assert forall|v: int|
                    0 <= v < self.vertex_count() && #[trigger] self.touched(v) && v != from as int
                    implies {
                    &&& self.par(v) is Some
                    &&& 0 <= self.par(v)->Some_0 < self.vertex_count()
                    &&& self.touched(self.par(v)->Some_0 as int)
                    &&& self.nb(self.par(v)->Some_0 as int).contains(v as u32)
                    &&& key_lt(*self, rank, self.par(v)->Some_0 as int, v)
                } by {
                    if v != cur_i {
                        assert(self.vertices@[v] == g_sel.vertices@[v]);
                    }
                    assert(g_sel.touched(v));
                    let p = g_sel.par(v)->Some_0 as int;
                    assert(g_sel.touched(p) && g_sel.nb(p).contains(v as u32) && key_lt(
                        g_sel,
                        rank,
                        p,
                        v,
                    ));
                    if p != cur_i {
                        assert(self.vertices@[p] == g_sel.vertices@[p]);
                    }
                }
                assert forall|v: int|
                    0 <= v < self.vertex_count() && !(#[trigger] self.touched(v))
                        implies self.gsc(v) == INFINITE_COST by {
                    if v != cur_i {
                        assert(self.vertices@[v] == g_sel.vertices@[v]);
                        assert(!g_sel.touched(v));
                        assert(g_sel.gsc(v) == INFINITE_COST);
                    }
                }
                assert forall|v: int|
                    0 <= v < self.vertex_count() && #[trigger] self.touched(v) implies reachable(
                    *old(self),
                    from as int,
                    v,
                ) by {
                    if v != cur_i {
                        assert(self.vertices@[v] == g_sel.vertices@[v]);
                    }
                    assert(g_sel.touched(v));
                }
                assert(self.vertices@[to as int] == g_sel.vertices@[to as int]);
                assert(self.gsc(from as int) == 0) by {
                    if from != current_index {
                        assert(self.vertices@[from as int] == g_sel.vertices@[from as int]);
                    }
                }
                assert(search_inv(*self, *old(self), from as int, rank, next_rank));
                assert forall|v: int|
                    0 <= v < self.vertex_count() implies #[trigger] self.vertices@[v].data.g_penalty
                    == 1u32 by {
                    if v != cur_i {
                        assert(self.vertices@[v] == g_sel.vertices@[v]);
                    }
                }
                assert(touched_set(*self) =~= touched_set(g_sel));
                assert forall|w: int|
                    (#[trigger] edge_costs_bounded(*old(self), w)) && old(self).vertex_count() * w
                        < u64::MAX implies g_scores_bounded(*self, w) by {
                    assert(g_scores_bounded(g_sel, w));
                    assert forall|v: int|
                        0 <= v < self.vertex_count() && self.touched(v) implies (
                    #[trigger] self.vertices@[v].data.g_score) as int <= (touched_set(
                        *self,
                    ).len() - 1) * w by {
                        if v != cur_i {
                            assert(self.vertices@[v] == g_sel.vertices@[v]);
                        }
                        assert(g_sel.touched(v));
                        assert((g_sel.vertices@[v].data.g_score) as int <= (touched_set(
                            g_sel,
                        ).len() - 1) * w);
                    }
                }
                assert forall|w: int|
                    (#[trigger] edge_costs_bounded(*old(self), w)) && old(self).vertex_count() * w
                        < u64::MAX && old(self).wf() implies closed_expanded_except(
                    *self,
                    cur_i,
                ) by {
                    assert(closed_expanded(g_sel));
                    assert forall|v: int, m: int|
                        0 <= v < self.vertex_count() && v != cur_i && self.vertices@[v].data.state
                            == PathVertexState::Closed && 0 <= m
                            < self.vertices@[v].data.neighbours@.len() implies self.touched(
                        (#[trigger] self.vertices@[v].data.neighbours@[m]) as int,
                    ) by {
                        assert(self.vertices@[v] == g_sel.vertices@[v]);
                        assert(g_sel.touched((g_sel.vertices@[v].data.neighbours@[m]) as int));
                        let e = g_sel.vertices@[v].data.neighbours@[m] as int;
                        if e != cur_i {
                            assert(self.vertices@[e] == g_sel.vertices@[e]);
                        }
                    }
                }
                assert(old(self).vertex_count() <= u32::MAX ==> closed_no_self_except(
                    *self,
                    cur_i,
                )) by {
                    if old(self).vertex_count() <= u32::MAX {
                        assert(closed_no_self(g_sel));
                        assert forall|v: int|
                            0 <= v < self.vertex_count() && v != cur_i
                                && self.vertices@[v].data.state == PathVertexState::Closed
                                implies !(#[trigger] self.vertices@[v].data.neighbours@).contains(
                            v as u32,
                        ) by {
                            assert(self.vertices@[v] == g_sel.vertices@[v]);
                        }
                    }
                }
            }
            let cur_pos = self.vertices[current_index].data.position;
            let cur_g = self.vertices[current_index].data.g_score;
            let ncount = self.vertices[current_index].data.neighbours.len();
            let mut improved = false;
            let mut k: usize = 0;
            while k < ncount
                invariant
                    search_inv(*self, *old(self), from as int, rank, next_rank),
                    0 <= from < self.vertex_count(),
                    0 <= to < self.vertex_count(),
                    old(self).vertex_count() == self.vertex_count(),
                    path@ == Seq::<Vec3>::empty(),
                    0 <= current_index < self.vertex_count(),
                    self.vertices@[current_index as int].data.state == PathVertexState::Closed,
                    cur_g == self.vertices@[current_index as int].data.g_score,
                    cur_pos == self.vertices@[current_index as int].data.position,
                    ncount == self.nb(current_index as int).len(),
                    0 <= k <= ncount,
                    open0.contains(current_index as int),
                    !improved ==> sum_g(self.vertices@) == sum0 && self.open_set() == open0.remove(
                        current_index as int,
                    ),
                    improved ==> sum_g(self.vertices@) < sum0,
                    self.vertices@[to as int].data.state != PathVertexState::Closed,
                    forall|v: int|
                        0 <= v < self.vertex_count() && #[trigger] self.touched(v) ==> reachable(
                            *old(self),
                            from as int,
                            v,
                        ),
                    forall|v: int|
                        0 <= v < self.vertex_count() ==> #[trigger] self.vertices@[v].data.g_penalty
                            == 1u32,
                    forall|w: int|
                        (#[trigger] edge_costs_bounded(*old(self), w)) && old(self).vertex_count()
                            * w < u64::MAX ==> g_scores_bounded(*self, w),
                    forall|w: int|
                        (#[trigger] edge_costs_bounded(*old(self), w)) && old(self).vertex_count()
                            * w < u64::MAX && old(self).wf() ==> closed_expanded_except(
                            *self,
                            current_index as int,
                        ),
                    forall|w: int|
                        (#[trigger] edge_costs_bounded(*old(self), w)) && old(self).vertex_count()
                            * w < u64::MAX && old(self).wf() ==> forall|m: int|
                            0 <= m < k ==> self.touched(
                                (#[trigger] self.vertices@[current_index as int].data.neighbours@[m]) as int,
                            ),
                    old(self).vertex_count() <= u32::MAX ==> closed_no_self_except(
                        *self,
                        current_index as int,
                    ),
                    old(self).vertex_count() <= u32::MAX ==> forall|m: int|
                        0 <= m < k ==> (
                        #[trigger] self.vertices@[current_index as int].data.neighbours@[m])
                            != current_index as u32,
                decreases ncount - k,
            {
                let n32 = self.vertices[current_index].data.neighbours[k];
                let n = n32 as usize;
                if n == current_index {
                    proof {
                        assert(self.nb(current_index as int)[k as int] == n32);
                        assert(n32 == current_index as u32);
                        assert(self.nb(current_index as int).contains(current_index as u32));
                        assert(old(self).nb(current_index as int) == self.nb(current_index as int));
                        assert(self.touched(current_index as int));
                        assert(reachable(*old(self), from as int, current_index as int));
                        if old(self).wf() && old(self).no_self_loops() && from < old(
                            self,
                        ).vertex_count() && to < old(self).vertex_count() {
                            assert(!old(self).nb(current_index as int).contains(
                                current_index as u32,
                            ));
                            assert(false);
                        }
                    }
                    return Err(PathError::CyclicReferenceFound(current_index));
                }
                if n >= self.vertices.len() {
                    proof {
                        assert(self.nb(current_index as int)[k as int] == n32);
                        assert(old(self).nb(current_index as int) == self.nb(current_index as int));
                        if old(self).wf() && from < old(self).vertex_count() && to < old(
                            self,
                        ).vertex_count() {
                            assert(old(self).nb(current_index as int)[k as int] < old(
                                self,
                            ).vertex_count());
                            assert(false);
                        }
                    }
                    return Err(PathError::InvalidIndex(n));
                }
                let npos = self.vertices[n].data.position;
                let npen = self.vertices[n].data.g_penalty;
                let d = squared_distance(cur_pos, npos);
                let step = cost_scale(d, npen);
                let g_cand = cost_add(cur_g, step);
                let ghost g_pre = *self;
                proof {
                    let n_i = n as int;
                    let cur_i = current_index as int;
                    assert(self.nb(cur_i)[k as int] == n32);
                    assert forall|w: int|
                        (#[trigger] edge_costs_bounded(*old(self), w)) && old(self).vertex_count()
                            * w < u64::MAX implies w >= 0 && (g_cand as int) == cur_g + sq_dist(
                        g_pre.pos_of(cur_i),
                        g_pre.pos_of(n_i),
                    ) && (g_cand as int) <= touched_set(g_pre).len() * w && (g_cand as int)
                        < u64::MAX by {
                        assert(old(self).nb(cur_i) == self.nb(cur_i));
                        assert(old(self).nb(cur_i)[k as int] == n32);
                        assert(sq_dist(old(self).pos_of(cur_i), old(self).pos_of(n32 as int))
                            <= w);
                        lemma_sq_dist_nonneg(old(self).pos_of(cur_i), old(self).pos_of(n32 as int));
                        assert(w >= 0);
                        assert(cur_pos == self.pos_of(cur_i));
                        assert(self.pos_of(cur_i) == old(self).pos_of(cur_i));
                        assert(npos == self.pos_of(n_i));
                        assert(self.pos_of(n_i) == old(self).pos_of(n_i));
                        let dd = sq_dist(old(self).pos_of(cur_i), old(self).pos_of(n_i));
                        let cnt = old(self).vertex_count();
                        assert(w <= cnt * w) by (nonlinear_arith)
                            requires
                                w >= 0,
                                cnt >= 1,
                        ;
                        assert(dd < u64::MAX);
                        assert(d == dd);
                        assert(npen == 1u32);
                        assert(step == d);
                        assert(self.touched(cur_i));
                        assert((self.vertices@[cur_i].data.g_score) as int <= (touched_set(
                            *self,
                        ).len() - 1) * w);
                        lemma_index_set_bounds(*self, touched_set(*self));
                        assert(touched_set(*self).contains(from as int));
                        lemma_set_contains_len(touched_set(*self), from as int);
                        let ts = touched_set(*self).len() as int;
                        assert((ts - 1) * w + w == ts * w) by (nonlinear_arith);
                        assert(ts * w <= cnt * w) by (nonlinear_arith)
                            requires
                                ts <= cnt,
                                w >= 0,
                        ;
                        assert(cur_g + dd <= ts * w);
                        assert(cur_g + dd < u64::MAX);
                        assert(g_cand == cur_g + dd);
                    }
                }
                if g_cand < self.vertices[n].data.g_score {
                    let h = squared_distance(npos, end_pos);
                    let f_cand = cost_add(g_cand, h);
                    self.vertices[n].data.parent = Some(current_index);
                    self.vertices[n].data.g_score = g_cand;
                    self.vertices[n].data.f_score = f_cand;
                    if !(self.vertices[n].data.state == PathVertexState::Open) {
                        self.vertices[n].data.state = PathVertexState::Open;
                    }
                    proof {
                        let n_i = n as int;
                        let cur_i = current_index as int;
                        let rank0 = rank;
                        let next0 = next_rank;
                        assert(g_cand < g_pre.gsc(n_i));
                        assert(n_i != from as int) by {
                            if n_i == from as int {
                                assert(g_pre.gsc(from as int) == 0);
                            }
                        }
                        assert(self.vertices@ =~= g_pre.vertices@.update(
                            n_i,
                            self.vertices@[n_i],
                        ));
                        lemma_sum_g_update(g_pre.vertices@, n_i, self.vertices@[n_i]);
                        assert(sum_g(self.vertices@) < sum_g(g_pre.vertices@));
                        rank = rank.update(n_i, next_rank);
                        next_rank = next_rank + 1;
                        assert forall|j: int| 0 <= j < self.vertex_count() implies #[trigger] self.pos_of(
                            j,
                        ) == old(self).pos_of(j) && self.nb(j) == old(self).nb(j) by {
                            if j == n_i {
                                assert(self.vertices@[j].data.position
                                    == g_pre.vertices@[j].data.position);
                                assert(self.vertices@[j].data.neighbours@
                                    == g_pre.vertices@[j].data.neighbours@);
                            } else {
                                assert(self.vertices@[j] == g_pre.vertices@[j]);
                            }
                            assert(g_pre.pos_of(j) == old(self).pos_of(j));
                            assert(g_pre.nb(j) == old(self).nb(j));
                        }
                        assert(self.nb(cur_i)[k as int] == n32);
                        assert(self.nb(cur_i).contains(n as u32));
                        assert forall|v: int|
                            0 <= v < self.vertex_count() && #[trigger] self.touched(v) && v
                                != from as int implies {
                            &&& self.par(v) is Some
                            &&& 0 <= self.par(v)->Some_0 < self.vertex_count()
                            &&& self.touched(self.par(v)->Some_0 as int)
                            &&& self.nb(self.par(v)->Some_0 as int).contains(v as u32)
                            &&& key_lt(*self, rank, self.par(v)->Some_0 as int, v)
                        } by {
                            if v == n_i {
                                assert(self.par(v) == Some(current_index));
                                assert(g_pre.touched(cur_i));
                                assert(self.touched(cur_i));
                                assert(self.gsc(cur_i) == cur_g);
                                assert(self.gsc(n_i) == g_cand);
                                assert(cur_g <= g_cand);
                                assert(rank[cur_i] == rank0[cur_i]);
                                assert(rank0[cur_i] < next0);
                                assert(rank[n_i] == next0);
                            } else {
                                assert(g_pre.touched(v));
                                assert(self.par(v) == g_pre.par(v));
                                let p = g_pre.par(v)->Some_0 as int;
                                assert(key_lt(g_pre, rank0, p, v));
                                assert(g_pre.touched(p));
                                assert(self.touched(p));
                                assert(self.nb(p) == g_pre.nb(p));
                                assert(self.gsc(v) == g_pre.gsc(v));
                                if p == n_i {
                                    assert(g_pre.gsc(p) <= g_pre.gsc(v));
                                    assert(self.gsc(p) == g_cand < g_pre.gsc(p));
                                    assert(self.gsc(p) < self.gsc(v));
                                } else {
                                    assert(self.gsc(p) == g_pre.gsc(p));
                                    assert(rank[p] == rank0[p]);
                                    assert(rank[v] == rank0[v]);
                                }
                            }
                        }
                        assert(parent_chains_sound(*self, from as int, rank)) by {
                            assert(self.vertices@[from as int] == g_pre.vertices@[from as int]);
                        }
                        assert forall|v: int|
                            0 <= v < self.vertex_count() implies #[trigger] rank[v]
                            < next_rank by {
                            if v != n_i {
                                assert(rank[v] == rank0[v]);
                                assert(rank0[v] < next0);
                            }
                        }
                        assert forall|v: int|
                            0 <= v < self.vertex_count() && !(#[trigger] self.touched(v))
                                implies self.gsc(v) == INFINITE_COST by {
                            assert(v != n_i);
                            assert(self.vertices@[v] == g_pre.vertices@[v]);
                            assert(!g_pre.touched(v));
                            assert(g_pre.gsc(v) == INFINITE_COST);
                        }
                        assert(self.gsc(from as int) == 0) by {
                            assert(self.vertices@[from as int] == g_pre.vertices@[from as int]);
                        }
                        assert(search_inv(*self, *old(self), from as int, rank, next_rank));
                        assert(g_pre.touched(cur_i));
                        assert(reachable(*old(self), from as int, cur_i));
                        lemma_reachable_step(*old(self), from as int, cur_i, n_i);
                        assert forall|v: int|
                            0 <= v < self.vertex_count() && #[trigger] self.touched(v)
                                implies reachable(*old(self), from as int, v) by {
                            if v != n_i {
                                assert(self.vertices@[v] == g_pre.vertices@[v]);
                                assert(g_pre.touched(v));
                            }
                        }
                        if to != n {
                            assert(self.vertices@[to as int] == g_pre.vertices@[to as int]);
                        }
                        assert(self.vertices@[to as int].data.state != PathVertexState::Closed);
                        assert forall|v: int|
                            0 <= v < self.vertex_count() implies #[trigger] self.vertices@[v].data.g_penalty
                            == 1u32 by {
                            if v != n_i {
                                assert(self.vertices@[v] == g_pre.vertices@[v]);
                            } else {
                                assert(self.vertices@[v].data.g_penalty
                                    == g_pre.vertices@[v].data.g_penalty);
                            }
                        }
                        if g_pre.touched(n_i) {
                            assert(touched_set(*self) =~= touched_set(g_pre));
                        } else {
                            assert(touched_set(*self) =~= touched_set(g_pre).insert(n_i));
                            lemma_index_set_bounds(g_pre, touched_set(g_pre));
                            vstd::set::axiom_set_insert_len(touched_set(g_pre), n_i);
                        }
                        assert forall|w: int|
                            (#[trigger] edge_costs_bounded(*old(self), w)) && old(
                                self,
                            ).vertex_count() * w < u64::MAX implies g_scores_bounded(
                            *self,
                            w,
                        ) by {
                            assert(g_scores_bounded(g_pre, w));
                            assert(w >= 0 && (g_cand as int) <= touched_set(g_pre).len() * w);
                            let tsp = touched_set(g_pre).len() as int;
                            let tsn = touched_set(*self).len() as int;
                            assert forall|v: int|
                                0 <= v < self.vertex_count() && self.touched(v) implies (
                            #[trigger] self.vertices@[v].data.g_score) as int <= (touched_set(
                                *self,
                            ).len() - 1) * w by {
                                if v == n_i {
                                    if g_pre.touched(n_i) {
                                        assert((g_pre.vertices@[n_i].data.g_score) as int <= (tsp
                                            - 1) * w);
                                        assert((g_cand as int) < (
                                        g_pre.vertices@[n_i].data.g_score) as int);
                                    } else {
                                        assert(tsn == tsp + 1);
                                    }
                                } else {
                                    assert(self.vertices@[v] == g_pre.vertices@[v]);
                                    assert(g_pre.touched(v));
                                    assert((g_pre.vertices@[v].data.g_score) as int <= (tsp - 1)
                                        * w);
                                    assert((tsp - 1) * w <= (tsn - 1) * w) by (nonlinear_arith)
                                        requires
                                            tsp <= tsn,
                                            w >= 0,
                                    ;
                                }
                            }
                        }
                        assert forall|w: int|
                            (#[trigger] edge_costs_bounded(*old(self), w)) && old(
                                self,
                            ).vertex_count() * w < u64::MAX && old(self).wf()
                                implies closed_expanded_except(*self, cur_i) by {
                            assert(closed_expanded_except(g_pre, cur_i));
                            assert forall|v: int, m: int|
                                0 <= v < self.vertex_count() && v != cur_i
                                    && self.vertices@[v].data.state == PathVertexState::Closed && 0
                                    <= m < self.vertices@[v].data.neighbours@.len()
                                    implies self.touched(
                                (#[trigger] self.vertices@[v].data.neighbours@[m]) as int,
                            ) by {
                                assert(v != n_i);
                                assert(self.vertices@[v] == g_pre.vertices@[v]);
                                assert(g_pre.touched(
                                    (g_pre.vertices@[v].data.neighbours@[m]) as int,
                                ));
                                let e = g_pre.vertices@[v].data.neighbours@[m] as int;
                                if e != n_i {
                                    assert(self.vertices@[e] == g_pre.vertices@[e]);
                                }
                            }
                        }
                        assert forall|w: int|
                            (#[trigger] edge_costs_bounded(*old(self), w)) && old(
                                self,
                            ).vertex_count() * w < u64::MAX && old(self).wf() implies forall|
                            m: int,
                        |
                            0 <= m < k + 1 ==> self.touched(
                                (#[trigger] self.vertices@[cur_i].data.neighbours@[m]) as int,
                            ) by {
                            assert forall|m: int| 0 <= m < k + 1 implies self.touched(
                                (#[trigger] self.vertices@[cur_i].data.neighbours@[m]) as int,
                            ) by {
                                assert(self.vertices@[cur_i] == g_pre.vertices@[cur_i]);
                                if m < k {
                                    assert(g_pre.touched(
                                        (g_pre.vertices@[cur_i].data.neighbours@[m]) as int,
                                    ));
                                    let e = g_pre.vertices@[cur_i].data.neighbours@[m] as int;
                                    if e != n_i {
                                        assert(self.vertices@[e] == g_pre.vertices@[e]);
                                    }
                                } else {
                                    assert(self.vertices@[cur_i].data.neighbours@[m] == n32);
                                    assert(self.touched(n_i));
                                }
                            }
                        }
                        if old(self).vertex_count() <= u32::MAX {
                            assert(closed_no_self_except(g_pre, cur_i));
                            assert forall|v: int|
                                0 <= v < self.vertex_count() && v != cur_i
                                    && self.vertices@[v].data.state == PathVertexState::Closed
                                    implies !(
                                #[trigger] self.vertices@[v].data.neighbours@).contains(
                                v as u32,
                            ) by {
                                assert(v != n_i);
                                assert(self.vertices@[v] == g_pre.vertices@[v]);
                            }
                            assert forall|m: int|
                                0 <= m < k + 1 implies (
                            #[trigger] self.vertices@[cur_i].data.neighbours@[m])
                                != current_index as u32 by {
                                assert(self.vertices@[cur_i] == g_pre.vertices@[cur_i]);
                                if m == k {
                                    assert(self.vertices@[cur_i].data.neighbours@[m] == n32);
                                    if n32 == current_index as u32 {
                                        assert(n == current_index);
                                    }
                                }
                            }
                        }
                    }
                    improved = true;
                } else {
                    proof {
                        let n_i = n as int;
                        let cur_i = current_index as int;
                        assert forall|w: int|
                            (#[trigger] edge_costs_bounded(*old(self), w)) && old(
                                self,
                            ).vertex_count() * w < u64::MAX implies self.touched(n_i) by {
                            if !self.touched(n_i) {
                                assert(self.gsc(n_i) == INFINITE_COST);
                                assert((g_cand as int) < u64::MAX);
                                assert(false);
                            }
                        }
                        assert forall|w: int|
                            (#[trigger] edge_costs_bounded(*old(self), w)) && old(
                                self,
                            ).vertex_count() * w < u64::MAX && old(self).wf() implies forall|
                            m: int,
                        |
                            0 <= m < k + 1 ==> self.touched(
                                (#[trigger] self.vertices@[cur_i].data.neighbours@[m]) as int,
                            ) by {
                            assert forall|m: int| 0 <= m < k + 1 implies self.touched(
                                (#[trigger] self.vertices@[cur_i].data.neighbours@[m]) as int,
                            ) by {
                                if m == k {
                                    assert(self.vertices@[cur_i].data.neighbours@[m] == n32);
                                    assert(self.touched(n_i));
                                }
                            }
                        }
                        if old(self).vertex_count() <= u32::MAX {
                            assert forall|m: int|
                                0 <= m < k + 1 implies (
                            #[trigger] self.vertices@[cur_i].data.neighbours@[m])
                                != current_index as u32 by {
                                if m == k {
                                    assert(self.vertices@[cur_i].data.neighbours@[m] == n32);
                                    if n32 == current_index as u32 {
                                        assert(n == current_index);
                                    }
                                }
                            }
                        }
                    }
                }
                k += 1;
            }
            proof {
                lemma_sum_g_nonneg(self.vertices@);
                if !improved {
                    lemma_index_set_bounds(*self, open0);
                    vstd::set::axiom_set_remove_len(open0, current_index as int);
                }
                let cur_i = current_index as int;
                assert forall|w: int|
                    (#[trigger] edge_costs_bounded(*old(self), w)) && old(self).vertex_count() * w
                        < u64::MAX && old(self).wf() implies closed_expanded(*self) by {
                    assert(closed_expanded_except(*self, cur_i));
                    assert forall|v: int, m: int|
                        0 <= v < self.vertex_count() && self.vertices@[v].data.state
                            == PathVertexState::Closed && 0 <= m
                            < self.vertices@[v].data.neighbours@.len() implies self.touched(
                        (#[trigger] self.vertices@[v].data.neighbours@[m]) as int,
                    ) by {
                        if v == cur_i {
                            assert(self.touched(
                                (self.vertices@[cur_i].data.neighbours@[m]) as int,
                            ));
                        }
                    }
                }
                if old(self).vertex_count() <= u32::MAX {
                    assert(closed_no_self_except(*self, cur_i));
                    assert forall|v: int|
                        0 <= v < self.vertex_count() && self.vertices@[v].data.state
                            == PathVertexState::Closed implies !(
                    #[trigger] self.vertices@[v].data.neighbours@).contains(v as u32) by {
                        if v == cur_i {
                            if self.vertices@[v].data.neighbours@.contains(v as u32) {
                                let m = choose|m: int|
                                    0 <= m < self.vertices@[v].data.neighbours@.len()
                                        && self.vertices@[v].data.neighbours@[m] == v as u32;
                                assert(self.vertices@[cur_i].data.neighbours@[m]
                                    != current_index as u32);
                                assert(false);
                            }
                        }
                    }
                }
            }
        }
        let closest = self.min_f_touched();
        proof {
            lemma_index_set_bounds(*self, keys_below(*self, rank, closest as int));
            lemma_parent_chain_reaches_root(
                *self,
                from as int,
                rank,
                closest as int,
                self.vertex_count() as nat,
            );
        }
        self.reconstruct_path(closest, path);
        proof {
            let ch = parent_chain(*self, closest as int, self.vertex_count() as nat);
            assert forall|m: int| 0 <= m < ch.len() - 1 implies #[trigger] old(self).nb(
                ch[m + 1],
            ).contains(ch[m] as u32) by {
                assert(self.nb(ch[m + 1]).contains(ch[m] as u32));
                assert(old(self).nb(ch[m + 1]) == self.nb(ch[m + 1]));
            }
            assert forall|m: int| 0 <= m < ch.len() implies path@[m] == old(self).pos_of(
                #[trigger] ch[m],
            ) by {
                assert(path@[0 + m] == self.pos_of(ch[m]));
                assert(old(self).pos_of(ch[m]) == self.pos_of(ch[m]));
            }
            assert(is_position_chain(*old(self), ch, path@));
            assert(distinct_indices(ch));
            assert forall|m: int| 0 <= m < ch.len() - 1 implies self.gsc(#[trigger] ch[m + 1])
                <= self.gsc(ch[m]) by {
                assert(key_lt(*self, rank, ch[m + 1], ch[m]));
            }
            assert(ch[0] == closest as int);
            assert(self.touched(closest as int));
            assert forall|w: int|
                (old(self).wf() && old(self).no_self_loops() && from < old(self).vertex_count()
                    && to < old(self).vertex_count() && old(self).vertex_count() <= u32::MAX && (
                #[trigger] edge_costs_bounded(*old(self), w)) && old(self).vertex_count() * w
                    < u64::MAX && reachable(*old(self), from as int, to as int)) implies false by {
                assert(closed_expanded(*self));
                let p = choose|p: Seq<int>|
                    is_walk(*old(self), p) && p[0] == from as int && p.last() == to as int;
                assert(self.touched(from as int));
                lemma_walk_touched(*self, *old(self), p, p.len() - 1);
                assert(self.touched(to as int));
                assert(self.st(to as int) != PathVertexState::Open);
                assert(self.vertices@[to as int].data.state != PathVertexState::Closed);
            }
            assert forall|w: int|
                (old(self).wf() && from < old(self).vertex_count() && to < old(
                    self,
                ).vertex_count() && old(self).vertex_count() <= u32::MAX && (
                #[trigger] edge_costs_bounded(*old(self), w)) && old(self).vertex_count() * w
                    < u64::MAX && !reachable(*old(self), from as int, to as int) && (exists|v: int|
                    0 <= v < old(self).vertex_count() && reachable(*old(self), from as int, v)
                        && old(self).nb(v).contains(v as u32))) implies false by {
                assert(closed_expanded(*self));
                assert(closed_no_self(*self));
                let v = choose|v: int|
                    0 <= v < old(self).vertex_count() && reachable(*old(self), from as int, v)
                        && old(self).nb(v).contains(v as u32);
                let p = choose|p: Seq<int>|
                    is_walk(*old(self), p) && p[0] == from as int && p.last() == v;
                assert(self.touched(from as int));
                lemma_walk_touched(*self, *old(self), p, p.len() - 1);
                assert(self.touched(v));
                assert(self.st(v) != PathVertexState::Open);
                assert(self.vertices@[v].data.state == PathVertexState::Closed);
                assert(!self.vertices@[v].data.neighbours@.contains(v as u32));
                assert(self.nb(v) == old(self).nb(v));
            }
        }
        Ok(PathKind::Partial)
    }
}

/// Hard cap on frontier expansions in [`Graph::build`]: a fixed compute
/// budget regardless of graph size.
pub const MAX_SEARCH_ITERATIONS: usize = 1000;

/// A partially complete path: the indices of its vertices from the start
/// vertex to the frontier, with its cumulative scores.
#[derive(Debug)]
pub struct PartialPath {
    /// Vertex indices from the start vertex to the path's frontier end.
    pub vertices: Vec<usize>,
    /// Cumulative traversal cost of the path.
    pub g_score: u64,
    /// `g_score` plus the heuristic estimate from the frontier to the goal.
    pub f_score: u64,
}

/// The heuristic remainder of a partial path: its `f_score` with the
/// accumulated cost taken back out.
pub open spec fn rem_heuristic(p: PartialPath) -> u64 {
    if p.f_score >= p.g_score {
        (p.f_score - p.g_score) as u64
    } else {
        0u64
    }
}

/// The frontier order: `a` is strictly better than `b` when its `f_score`
/// is lower, or equal with a lower heuristic remainder (closer to the goal).
pub open spec fn path_key_lt(a: PartialPath, b: PartialPath) -> bool {
    a.f_score < b.f_score || (a.f_score == b.f_score && rem_heuristic(a) < rem_heuristic(b))
}

impl PartialPath {
    /// Creates a path holding only the start vertex, with no cost yet and an
    /// unknown estimate.
    pub fn new(start: usize) -> (r: PartialPath)
        ensures
            r.vertices@ == seq![start],
            r.g_score == 0u64,
            r.f_score == INFINITE_COST,
    {
        let mut vertices: Vec<usize> = Vec::new();
        vertices.push(start);
        proof {
            assert(vertices@ =~= seq![start]);
        }
        PartialPath { vertices, g_score: 0, f_score: u64::MAX }
    }

    /// An exact copy.
    fn duplicate(&self) -> (r: PartialPath)
        ensures
            r.vertices@ == self.vertices@,
            r.g_score == self.g_score,
            r.f_score == self.f_score,
    {
        let mut vertices: Vec<usize> = Vec::new();
        let mut i: usize = 0;
        while i < self.vertices.len()
            invariant
                0 <= i <= self.vertices@.len(),
                vertices@ == self.vertices@.subrange(0, i as int),
            decreases self.vertices@.len() - i,
        {
            vertices.push(self.vertices[i]);
            proof {
                assert(vertices@ =~= self.vertices@.subrange(0, i + 1));
            }
            i += 1;
        }
        proof {
            assert(vertices@ =~= self.vertices@);
        }
        PartialPath { vertices, g_score: self.g_score, f_score: self.f_score }
    }

    /// A copy with one more vertex at the end and the scores replaced.
    pub fn clone_and_add(&self, new_vertex: usize, new_g_score: u64, new_f_score: u64) -> (r:
        PartialPath)
        ensures
            r.vertices@ == self.vertices@.push(new_vertex),
            r.g_score == new_g_score,
            r.f_score == new_f_score,
    {
        let mut clone = self.duplicate();
        clone.vertices.push(new_vertex);
        clone.g_score = new_g_score;
        clone.f_score = new_f_score;
        clone
    }

    /// Whether this path comes strictly before `other` in the frontier
    /// order.
    pub fn beats(&self, other: &PartialPath) -> (r: bool)
        ensures
            r == path_key_lt(*self, *other),
    {
        if self.f_score < other.f_score {
            true
        } else if self.f_score == other.f_score {
            let my_rem = if self.f_score >= self.g_score {
                self.f_score - self.g_score
            } else {
                0
            };
            let other_rem = if other.f_score >= other.g_score {
                other.f_score - other.g_score
            } else {
                0
            };
            my_rem < other_rem
        } else {
            false
        }
    }
}

impl Default for PartialPath {
    /// An empty path with unknown scores; any real candidate with a finite
    /// estimate comes before it in the frontier order.
    fn default() -> (r: PartialPath)
        ensures
            r.vertices@ == Seq::<usize>::empty(),
            r.g_score == INFINITE_COST,
            r.f_score == INFINITE_COST,
    {
        PartialPath { vertices: Vec::new(), g_score: u64::MAX, f_score: u64::MAX }
    }
}

/// Removes and returns a best element of the frontier: no other element
/// comes strictly before it in the frontier order.
fn pop_best(heap: &mut Vec<PartialPath>) -> (r: PartialPath)
    requires
        old(heap)@.len() > 0,
    ensures
        final(heap)@.len() == old(heap)@.len() - 1,
        exists|i: int|
            0 <= i < old(heap)@.len() && r == old(heap)@[i] && final(heap)@ == old(heap)@.remove(
                i,
            ),
        forall|j: int| 0 <= j < old(heap)@.len() ==> !path_key_lt(#[trigger] old(heap)@[j], r),
{
    let mut bi: usize = 0;
    let mut j: usize = 1;
    while j < heap.len()
        invariant
            0 <= bi < j <= heap@.len(),
            heap@ == old(heap)@,
            forall|m: int| 0 <= m < j ==> !path_key_lt(#[trigger] heap@[m], heap@[bi as int]),
        decreases heap@.len() - j,
    {
        if heap[j].beats(&heap[bi]) {
            bi = j;
        }
        j += 1;
    }
    heap.remove(bi)
}

/// A frontier candidate is rooted at `from` and every later entry extends
/// the path along a recorded edge between existing vertices.
pub open spec fn frontier_path_ok(g: Graph, from: usize, p: PartialPath) -> bool {
    &&& p.vertices@.len() >= 1
    &&& p.vertices@[0] == from
    &&& forall|m: int|
        1 <= m < p.vertices@.len() ==> (p.vertices@[m - 1] as int) < g.vertex_count() && (
        #[trigger] p.vertices@[m] as int) < g.vertex_count() && g.nb(
            p.vertices@[m - 1] as int,
        ).contains(p.vertices@[m] as u32)
}

/// No vertex occurs twice in a candidate path.
spec fn distinct_vertex_list(s: Seq<usize>) -> bool {
    forall|m1: int, m2: int| 0 <= m1 < m2 < s.len() ==> s[m1] != s[m2]
}

/// Every vertex of a candidate path except its frontier end has already
/// been expanded.
spec fn prefix_done(g: Graph, searched: Seq<bool>, p: PartialPath) -> bool {
    forall|m: int|
        0 <= m < p.vertices@.len() - 1 ==> ((#[trigger] p.vertices@[m]) as int) < g.vertex_count()
            && searched[p.vertices@[m] as int]
}

/// As [`prefix_done`], except that the vertex under expansion counts as
/// already expanded.
spec fn prefix_done_or(g: Graph, searched: Seq<bool>, p: PartialPath, ex: int) -> bool {
    forall|m: int|
        0 <= m < p.vertices@.len() - 1 ==> ((#[trigger] p.vertices@[m]) as int) < g.vertex_count()
            && (searched[p.vertices@[m] as int] || (p.vertices@[m] as int) == ex)
}

impl Graph {
    /// Bounded frontier search over path prefixes from `from` towards `to`.
    ///
    /// A frontier of candidate paths is expanded best-first, each vertex at
    /// most once, for at most [`MAX_SEARCH_ITERATIONS`] rounds; the best
    /// candidate found inside that budget is returned. Scratch fields are
    /// not used and the graph is left untouched. The waypoints are written
    /// to `path` goal end first, as in [`Graph::search`]. `Full` is reported
    /// exactly when the path's far end sits on the goal position. An empty
    /// graph yields `Partial` with an empty path; `Empty` reports a search
    /// that produced no usable candidate, as happens when `from` has no
    /// neighbours.
    #[verifier::rlimit(100)]
    pub fn build(&self, from: usize, to: usize, path: &mut Vec<Vec3>) -> (r: Result<
        PathKind,
        PathError,
    >)
        ensures
            self.vertex_count() == 0 ==> (r matches Ok(k) && k == PathKind::Partial)
                && final(path)@ == Seq::<Vec3>::empty(),
            self.vertex_count() > 0 && to >= self.vertex_count() ==> (r matches Err(e) && e == (
            PathError::InvalidIndex(to))),
            r matches Err(PathError::InvalidIndex(i)) ==> i >= self.vertex_count(),
            self.vertex_count() > 0 && to < self.vertex_count() && from >= self.vertex_count()
                ==> (r matches Err(e) && e == (PathError::InvalidIndex(from))),
            self.wf() && from < self.vertex_count() && to < self.vertex_count() ==> (r is Ok || (
            r matches Err(e) && e == PathError::Empty)),
            forall|w: int, hb: int|
                (self.wf() && from < self.vertex_count() && to < self.vertex_count() && self.nb(
                    from as int,
                ).len() > 0 && (#[trigger] edge_costs_bounded(*self, w)) && (
                #[trigger] heur_bounded(*self, to as int, hb)) && penalties_unit(*self) && w + hb
                    < u64::MAX) ==> r is Ok,
            r is Ok && self.vertex_count() > 0 ==> {
                &&& final(path)@.len() >= 2
                &&& final(path)@.last() == self.pos_of(from as int)
                &&& exists|idxs: Seq<int>|
                    {
                        &&& #[trigger] is_position_chain(*self, idxs, final(path)@)
                        &&& idxs.last() == from
                        &&& (self.no_self_loops() ==> distinct_indices(idxs))
                    }
            },
            self.vertex_count() > 0 ==> (r matches Ok(k) ==> (k == PathKind::Full
                <==> final(path)@[0] == self.pos_of(to as int))),
            r is Err ==> final(path)@ == Seq::<Vec3>::empty(),
    {
        path.clear();
        if self.vertices.is_empty() {
            return Ok(PathKind::Partial);
        }
        if to >= self.vertices.len() {
            return Err(PathError::InvalidIndex(to));
        }
        let end_pos = self.vertices[to].data.position;
        if from >= self.vertices.len() {
            return Err(PathError::InvalidIndex(from));
        }
        let count = self.vertices.len();
        let mut searched = vec![false; count];
        let mut search_heap: Vec<PartialPath> = Vec::new();
        search_heap.push(PartialPath::new(from));
        let mut best_path = PartialPath::default();
        let mut round: usize = 0;
        while round < MAX_SEARCH_ITERATIONS
            invariant
                0 <= round <= MAX_SEARCH_ITERATIONS,
                count == self.vertex_count(),
                count > 0,
                0 <= to < count,
                0 <= from < count,
                end_pos == self.vertices@[to as int].data.position,
                searched@.len() == count,
                path@ == Seq::<Vec3>::empty(),
                forall|j: int|
                    0 <= j < search_heap@.len() ==> frontier_path_ok(
                        *self,
                        from,
                        #[trigger] search_heap@[j],
                    ),
                forall|j: int|
                    0 <= j < search_heap@.len() && (#[trigger] search_heap@[j]).vertices@.len()
                        == 1 ==> search_heap@[j].f_score == INFINITE_COST
                        && search_heap@[j].g_score == 0,
                best_path.vertices@.len() == 0 ==> best_path.g_score == INFINITE_COST
                    && best_path.f_score == INFINITE_COST,
                best_path.vertices@.len() > 0 ==> frontier_path_ok(*self, from, best_path)
                    && best_path.vertices@.len() >= 2,
                forall|j: int|
                    0 <= j < search_heap@.len() ==> prefix_done(
                        *self,
                        searched@,
                        #[trigger] search_heap@[j],
                    ),
                self.no_self_loops() ==> (forall|j: int|
                    0 <= j < search_heap@.len() ==> distinct_vertex_list(
                        (#[trigger] search_heap@[j]).vertices@,
                    )) && distinct_vertex_list(best_path.vertices@),
                forall|w: int, hb: int|
                    (self.wf() && (from as int) < count && (to as int) < count && self.nb(
                        from as int,
                    ).len() > 0 && (#[trigger] edge_costs_bounded(*self, w)) && (
                    #[trigger] heur_bounded(*self, to as int, hb)) && penalties_unit(*self) && w
                        + hb < u64::MAX) ==> {
                        ||| best_path.vertices@.len() >= 2
                        ||| (round == 0 && search_heap@.len() == 1
                            && search_heap@[0].vertices@.len() == 1 && forall|m: int|
                            0 <= m < searched@.len() ==> searched@[m] == false)
                        ||| (round == 1 && exists|j: int|
                            0 <= j < search_heap@.len() && (
                            #[trigger] search_heap@[j]).f_score < u64::MAX)
                    },
            ensures
                count == self.vertex_count(),
                count > 0,
                0 <= to < count,
                path@ == Seq::<Vec3>::empty(),
                best_path.vertices@.len() == 0 ==> best_path.g_score == INFINITE_COST
                    && best_path.f_score == INFINITE_COST,
                best_path.vertices@.len() > 0 ==> frontier_path_ok(*self, from, best_path)
                    && best_path.vertices@.len() >= 2,
                forall|w: int, hb: int|
                    (self.wf() && (from as int) < count && (to as int) < count && self.nb(
                        from as int,
                    ).len() > 0 && (#[trigger] edge_costs_bounded(*self, w)) && (
                    #[trigger] heur_bounded(*self, to as int, hb)) && penalties_unit(*self) && w
                        + hb < u64::MAX) ==> best_path.vertices@.len() >= 2,
                self.no_self_loops() ==> distinct_vertex_list(best_path.vertices@),
            decreases MAX_SEARCH_ITERATIONS - round,
        {
            if search_heap.is_empty() {
                proof {
                    assert forall|w: int, hb: int|
                        (self.wf() && (from as int) < count && (to as int) < count && self.nb(
                            from as int,
                        ).len() > 0 && (#[trigger] edge_costs_bounded(*self, w)) && (
                        #[trigger] heur_bounded(*self, to as int, hb)) && penalties_unit(*self)
                            && w + hb < u64::MAX) implies best_path.vertices@.len() >= 2 by {
                        if best_path.vertices@.len() < 2 {
                            assert(search_heap@.len() == 0);
                        }
                    }
                }
                break;
            }
            let ghost heap0 = search_heap@;
            let current_path = pop_best(&mut search_heap);
            proof {
                let wi = choose|i: int|
                    0 <= i < heap0.len() && current_path == heap0[i] && search_heap@
                        == heap0.remove(i);
                assert(frontier_path_ok(*self, from, current_path));
                assert(current_path.vertices@.len() == 1 ==> current_path.f_score == INFINITE_COST
                    && current_path.g_score == 0);
                assert(prefix_done(*self, searched@, current_path));
                assert(self.no_self_loops() ==> distinct_vertex_list(current_path.vertices@));
                assert forall|j: int| 0 <= j < search_heap@.len() implies frontier_path_ok(
                    *self,
                    from,
                    #[trigger] search_heap@[j],
                ) && (search_heap@[j].vertices@.len() == 1 ==> search_heap@[j].f_score
                    == INFINITE_COST && search_heap@[j].g_score == 0) && prefix_done(
                    *self,
                    searched@,
                    search_heap@[j],
                ) && (self.no_self_loops() ==> distinct_vertex_list(
                    search_heap@[j].vertices@,
                )) by {
                    if j < wi {
                        assert(search_heap@[j] == heap0[j]);
                    } else {
                        assert(search_heap@[j] == heap0[j + 1]);
                    }
                }
            }
            let current_index = current_path.vertices[current_path.vertices.len() - 1];
            if current_path.beats(&best_path) {
                proof {
                    if current_path.vertices@.len() == 1 {
                        assert(rem_heuristic(current_path) == INFINITE_COST - 0);
                        assert(rem_heuristic(best_path) <= INFINITE_COST);
                        assert(!path_key_lt(current_path, best_path));
                    }
                }
                best_path = current_path.duplicate();
                if current_index == to {
                    break;
                }
            }
            proof {
                assert forall|w: int, hb: int|
                    (self.wf() && (from as int) < count && (to as int) < count && self.nb(
                        from as int,
                    ).len() > 0 && (#[trigger] edge_costs_bounded(*self, w)) && (
                    #[trigger] heur_bounded(*self, to as int, hb)) && penalties_unit(*self) && w
                        + hb < u64::MAX) && round == 1 implies best_path.vertices@.len() >= 2 by {
                    if best_path.vertices@.len() < 2 {
                        let j = choose|j: int|
                            0 <= j < heap0.len() && (#[trigger] heap0[j]).f_score < u64::MAX;
                        assert(!path_key_lt(heap0[j], current_path));
                        assert(current_path.f_score < u64::MAX);
                        assert(best_path.f_score == INFINITE_COST);
                        assert(path_key_lt(current_path, best_path));
                    }
                }
            }
            if current_index >= self.vertices.len() {
                proof {
                    if current_path.vertices@.len() >= 2 {
                        let lm = current_path.vertices@.len() - 1;
                        assert((current_path.vertices@[lm] as int) < count);
                        assert(false);
                    }
                    assert(current_index == from);
                }
                return Err(PathError::InvalidIndex(current_index));
            }
            let ncount = self.vertices[current_index].data.neighbours.len();
            let cur_pos = self.vertices[current_index].data.position;
            let mut k: usize = 0;
            while k < ncount
                invariant
                    count == self.vertex_count(),
                    count > 0,
                    0 <= to < count,
                    0 <= from < count,
                    searched@.len() == count,
                    path@ == Seq::<Vec3>::empty(),
                    0 <= current_index < count,
                    ncount == self.nb(current_index as int).len(),
                    0 <= k <= ncount,
                    frontier_path_ok(*self, from, current_path),
                    current_path.vertices@.last() == current_index,
                    forall|j: int|
                        0 <= j < search_heap@.len() ==> frontier_path_ok(
                            *self,
                            from,
                            #[trigger] search_heap@[j],
                        ),
                    forall|j: int|
                        0 <= j < search_heap@.len() && (#[trigger] search_heap@[j]).vertices@.len()
                            == 1 ==> search_heap@[j].f_score == INFINITE_COST
                            && search_heap@[j].g_score == 0,
                    0 <= round < MAX_SEARCH_ITERATIONS,
                    current_path.g_score == 0 || current_path.vertices@.len() >= 2,
                    cur_pos == self.vertices@[current_index as int].data.position,
                    end_pos == self.vertices@[to as int].data.position,
                    forall|w: int, hb: int|
                        (self.wf() && (from as int) < count && (to as int) < count && self.nb(
                            from as int,
                        ).len() > 0 && (#[trigger] edge_costs_bounded(*self, w)) && (
                        #[trigger] heur_bounded(*self, to as int, hb)) && penalties_unit(*self)
                            && w + hb < u64::MAX) ==> {
                            ||| best_path.vertices@.len() >= 2
                            ||| exists|j: int|
                                0 <= j < search_heap@.len() && (
                                #[trigger] search_heap@[j]).f_score < u64::MAX
                            ||| (round == 0 && k == 0 && current_path.vertices@.len() == 1
                                && current_path.g_score == 0 && forall|m: int|
                                0 <= m < searched@.len() ==> searched@[m] == false)
                        },
                    prefix_done(*self, searched@, current_path),
                    forall|j: int|
                        0 <= j < search_heap@.len() ==> prefix_done_or(
                            *self,
                            searched@,
                            #[trigger] search_heap@[j],
                            current_index as int,
                        ),
                    self.no_self_loops() ==> (forall|j: int|
                        0 <= j < search_heap@.len() ==> distinct_vertex_list(
                            (#[trigger] search_heap@[j]).vertices@,
                        )) && distinct_vertex_list(current_path.vertices@)
                        && distinct_vertex_list(best_path.vertices@),
                decreases ncount - k,
            {
                let n32 = self.vertices[current_index].data.neighbours[k];
                let n = n32 as usize;
                if n >= count {
                    proof {
                        assert(self.nb(current_index as int)[k as int] == n32);
                        if self.wf() && from < self.vertex_count() && to < self.vertex_count() {
                            assert(false);
                        }
                    }
                    return Err(PathError::InvalidIndex(n));
                }
                if !searched[n] {
                    let npos = self.vertices[n].data.position;
                    let npen = self.vertices[n].data.g_penalty;
                    let d = squared_distance(cur_pos, npos);
                    let neighbour_g_score = cost_add(current_path.g_score, cost_scale(d, npen));
                    let neighbour_f_score = cost_add(
                        neighbour_g_score,
                        squared_distance(npos, end_pos),
                    );
                    let extended = current_path.clone_and_add(
                        n,
                        neighbour_g_score,
                        neighbour_f_score,
                    );
                    proof {
                        assert(self.nb(current_index as int)[k as int] == n32);
                        assert(self.nb(current_index as int).contains(n as u32));
                        assert(extended.vertices@.last() == n);
                        assert(frontier_path_ok(*self, from, extended)) by {
                            assert forall|m: int|
                                1 <= m < extended.vertices@.len() implies (
                            extended.vertices@[m - 1] as int) < count && (
                            #[trigger] extended.vertices@[m] as int) < count && self.nb(
                                extended.vertices@[m - 1] as int,
                            ).contains(extended.vertices@[m] as u32) by {
                                if m < extended.vertices@.len() - 1 {
                                    assert(extended.vertices@[m]
                                        == current_path.vertices@[m]);
                                    assert(extended.vertices@[m - 1]
                                        == current_path.vertices@[m - 1]);
                                } else {
                                    assert(extended.vertices@[m] == n);
                                    assert(extended.vertices@[m - 1] == current_index);
                                }
                            }
                        }
                        assert(prefix_done_or(
                            *self,
                            searched@,
                            extended,
                            current_index as int,
                        )) by {
                            assert forall|m: int|
                                0 <= m < extended.vertices@.len() - 1 implies ((
                            #[trigger] extended.vertices@[m]) as int) < count && (searched@[
                                extended.vertices@[m] as int] || (extended.vertices@[m] as int)
                                == current_index as int) by {
                                assert(extended.vertices@[m] == current_path.vertices@[m]);
                                if m < current_path.vertices@.len() - 1 {
                                    assert((current_path.vertices@[m] as int) < count
                                        && searched@[current_path.vertices@[m] as int]);
                                } else {
                                    assert(current_path.vertices@[m] == current_index);
                                }
                            }
                        }
                        if self.no_self_loops() {
                            assert(distinct_vertex_list(extended.vertices@)) by {
                                assert forall|m1: int, m2: int|
                                    0 <= m1 < m2 < extended.vertices@.len() implies (
                                #[trigger] extended.vertices@[m1]) != (
                                #[trigger] extended.vertices@[m2]) by {
                                    if m2 < extended.vertices@.len() - 1 {
                                        assert(extended.vertices@[m1]
                                            == current_path.vertices@[m1]);
                                        assert(extended.vertices@[m2]
                                            == current_path.vertices@[m2]);
                                    } else {
                                        assert(extended.vertices@[m2] == n);
                                        assert(extended.vertices@[m1]
                                            == current_path.vertices@[m1]);
                                        if current_path.vertices@[m1] == n {
                                            if m1 < current_path.vertices@.len() - 1 {
                                                assert(searched@[current_path.vertices@[m1] as int]
                                                    || (current_path.vertices@[m1] as int)
                                                    == current_index as int);
                                                if (current_path.vertices@[m1] as int)
                                                    == current_index as int {
                                                    assert(n == current_index);
                                                    assert(n32 == current_index as u32);
                                                    assert(self.nb(current_index as int).contains(
                                                        current_index as u32,
                                                    ));
                                                }
                                            } else {
                                                assert(current_path.vertices@[m1]
                                                    == current_index);
                                                assert(n == current_index);
                                                assert(n32 == current_index as u32);
                                                assert(self.nb(current_index as int).contains(
                                                    current_index as u32,
                                                ));
                                            }
                                        }
                                    }
                                }
                            }
                        }
                    }
                    let ghost heap_pre = search_heap@;
                    search_heap.push(extended);
                    proof {
                        assert forall|w: int, hb: int|
                            (self.wf() && (from as int) < count && (to as int) < count && self.nb(
                                from as int,
                            ).len() > 0 && (#[trigger] edge_costs_bounded(*self, w)) && (
                            #[trigger] heur_bounded(*self, to as int, hb)) && penalties_unit(
                                *self,
                            ) && w + hb < u64::MAX) implies best_path.vertices@.len() >= 2
                            || (exists|j: int|
                            0 <= j < search_heap@.len() && (
                            #[trigger] search_heap@[j]).f_score < u64::MAX) by {
                            if best_path.vertices@.len() < 2 {
                                if exists|j: int|
                                    0 <= j < heap_pre.len() && (#[trigger] heap_pre[j]).f_score
                                        < u64::MAX {
                                    let j = choose|j: int|
                                        0 <= j < heap_pre.len() && (
                                        #[trigger] heap_pre[j]).f_score < u64::MAX;
                                    assert(search_heap@[j] == heap_pre[j]);
                                    assert(search_heap@[j].f_score < u64::MAX);
                                } else {
                                    // the first expansion of the start vertex: its
                                    // candidate stays below the cost ceiling
                                    let cur_i = current_index as int;
                                    assert(round == 0 && k == 0
                                        && current_path.vertices@.len() == 1);
                                    assert(current_path.vertices@[0] == from);
                                    assert(current_index == from);
                                    assert(self.nb(cur_i)[0] == n32);
                                    assert(sq_dist(self.pos_of(cur_i), self.pos_of(n32 as int))
                                        <= w);
                                    lemma_sq_dist_nonneg(self.pos_of(cur_i), self.pos_of(n as int));
                                    assert(w >= 0);
                                    assert(sq_dist(self.pos_of(to as int), self.pos_of(to as int))
                                        == 0) by (nonlinear_arith);
                                    assert(sq_dist(self.pos_of(to as int), self.pos_of(to as int))
                                        <= hb);
                                    assert(hb >= 0);
                                    assert(cur_pos == self.pos_of(cur_i));
                                    assert(npos == self.pos_of(n as int));
                                    let dd = sq_dist(self.pos_of(cur_i), self.pos_of(n as int));
                                    assert(dd < u64::MAX);
                                    assert(d == dd);
                                    assert(npen == 1u32);
                                    assert(current_path.g_score == 0);
                                    assert(neighbour_g_score == dd);
                                    let hh = sq_dist(self.pos_of(n as int), self.pos_of(to as int));
                                    assert(hh <= hb);
                                    lemma_sq_dist_nonneg(
                                        self.pos_of(n as int),
                                        self.pos_of(to as int),
                                    );
                                    assert(hh < u64::MAX);
                                    assert(neighbour_f_score == dd + hh);
                                    assert(neighbour_f_score < u64::MAX);
                                    assert(extended.f_score < u64::MAX);
                                    assert(search_heap@[heap_pre.len() as int] == extended);
                                    assert(search_heap@[heap_pre.len() as int].f_score
                                        < u64::MAX);
                                }
                            }
                        }
                    }
                }
                k += 1;
            }
            let ghost searched_pre = searched@;
            searched[current_index] = true;
            proof {
                assert forall|j: int| 0 <= j < search_heap@.len() implies prefix_done(
                    *self,
                    searched@,
                    #[trigger] search_heap@[j],
                ) by {
                    assert(prefix_done_or(
                        *self,
                        searched_pre,
                        search_heap@[j],
                        current_index as int,
                    ));
                    let p = search_heap@[j];
                    assert forall|m: int|
                        0 <= m < p.vertices@.len() - 1 implies ((
                    #[trigger] p.vertices@[m]) as int) < count && searched@[p.vertices@[m] as int]
                        by {
                        assert((p.vertices@[m] as int) < count && (searched_pre[p.vertices@[m] as int]
                            || (p.vertices@[m] as int) == current_index as int));
                    }
                }
            }
            round += 1;
        }
        if best_path.vertices.len() == 0 {
            proof {
                assert forall|w: int, hb: int|
                    (self.wf() && from < self.vertex_count() && to < self.vertex_count()
                        && self.nb(from as int).len() > 0 && (#[trigger] edge_costs_bounded(
                        *self,
                        w,
                    )) && (#[trigger] heur_bounded(*self, to as int, hb)) && penalties_unit(*self)
                        && w + hb < u64::MAX) implies false by {
                    assert(best_path.vertices@.len() >= 2);
                }
            }
            return Err(PathError::Empty);
        }
        let blen = best_path.vertices.len();
        let ghost idxs = Seq::new(blen as nat, |m: int| best_path.vertices@[blen - 1 - m] as int);
        let mut k: usize = 0;
        while k < blen
            invariant
                0 <= k <= blen,
                blen == best_path.vertices@.len() >= 2,
                count == self.vertex_count(),
                frontier_path_ok(*self, from, best_path),
                idxs == Seq::new(blen as nat, |m: int| best_path.vertices@[blen - 1 - m] as int),
                path@.len() == k,
                forall|m: int| 0 <= m < k ==> path@[m] == self.pos_of(#[trigger] idxs[m]),
            decreases blen - k,
        {
            let index = best_path.vertices[blen - 1 - k];
            proof {
                if blen - 1 - k >= 1 {
                    assert((best_path.vertices@[blen - 1 - k as int] as int) < count);
                } else {
                    assert((best_path.vertices@[1] as int) < count);
                    assert(self.nb(best_path.vertices@[0] as int).contains(
                        best_path.vertices@[1] as u32,
                    ));
                    assert((best_path.vertices@[0] as int) < count);
                }
            }
            if index >= count {
                proof {
                    assert(false);
                }
                return Err(PathError::InvalidIndex(index));
            }
            path.push(self.vertices[index].data.position);
            k += 1;
        }
        proof {
            assert(is_position_chain(*self, idxs, path@)) by {
                assert forall|m: int| 0 <= m < idxs.len() implies 0 <= #[trigger] idxs[m]
                    < self.vertex_count() && path@[m] == self.pos_of(idxs[m]) by {
                    let bm = blen - 1 - m;
                    assert(idxs[m] == best_path.vertices@[bm] as int);
                    if bm >= 1 {
                        assert((best_path.vertices@[bm] as int) < count);
                    } else {
                        assert((best_path.vertices@[1] as int) < count);
                        assert((best_path.vertices@[0] as int) < count);
                    }
                }
                assert forall|m: int| 0 <= m < idxs.len() - 1 implies #[trigger] self.nb(
                    idxs[m + 1],
                ).contains(idxs[m] as u32) by {
                    let bm = blen - 1 - m;
                    assert(idxs[m] == best_path.vertices@[bm] as int);
                    assert(idxs[m + 1] == best_path.vertices@[bm - 1] as int);
                    assert(self.nb(best_path.vertices@[bm - 1] as int).contains(
                        best_path.vertices@[bm] as u32,
                    ));
                }
            }
            assert(idxs.last() == best_path.vertices@[0] as int == from);
            assert(path@[0] == self.pos_of(idxs[0]));
            assert(path@.last() == self.pos_of(from as int));
        }
        let first = path[0];
        if first == end_pos {
            Ok(PathKind::Full)
        } else {
            Ok(PathKind::Partial)
        }
    }
}

impl Default for Graph {
    /// An empty graph.
    fn default() -> (g: Graph)
        ensures
            g.vertex_count() == 0,
    {
        Graph::new()
    }
}




} // verus!
