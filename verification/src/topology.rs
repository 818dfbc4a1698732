//! Mesh topology: edge adjacency, boundary loops, connected components.
use crate::tables::{
    edge_faces_contents, half_edges_contents, visited_edges_contents, EdgeFaces, HalfEdges,
    VisitedEdges,
};
use vstd::prelude::*;
use vstd::seq_lib::lemma_seq_contains_after_push;

verus! {

/// Face identifier (index into the triangle list).
pub type FaceId = u32;

/// The index structure of a triangle mesh: how many vertices it has and
/// which three vertices each triangle uses. Vertex positions are not part
/// of it.
pub struct MeshIndices {
    pub vertex_count: usize,
    pub tris: Vec<[u32; 3]>,
}

/// Canonical undirected edge key: the smaller index first.
pub open spec fn spec_edge_key(a: u32, b: u32) -> (u32, u32) {
    if a < b {
        (a, b)
    } else {
        (b, a)
    }
}

/// Canonical undirected edge key (min, max).
pub fn edge_key(a: u32, b: u32) -> (r: (u32, u32))
    ensures
        r == spec_edge_key(a, b),
{
    if a < b {
        (a, b)
    } else {
        (b, a)
    }
}

/// The `k`-th directed side of triangle `t`: `t[0]→t[1]`, `t[1]→t[2]`, `t[2]→t[0]`.
pub open spec fn tri_side(t: [u32; 3], k: int) -> (u32, u32) {
    if k == 0 {
        (t[0], t[1])
    } else if k == 1 {
        (t[1], t[2])
    } else {
        (t[2], t[0])
    }
}

/// Side number `s` of the whole triangle list: side `s % 3` of face `s / 3`.
pub open spec fn side_at(tris: Seq<[u32; 3]>, s: int) -> (u32, u32) {
    tri_side(tris[s / 3], s % 3)
}

/// The faces lying on undirected edge `key` among the first `s` sides of the
/// triangle list, one entry per side, in side order.
pub open spec fn faces_on_sides(tris: Seq<[u32; 3]>, s: nat, key: (u32, u32)) -> Seq<u32>
    decreases s,
{
    if s == 0 {
        Seq::empty()
    } else {
        let prev = faces_on_sides(tris, (s - 1) as nat, key);
        let side = side_at(tris, s - 1);
        if spec_edge_key(side.0, side.1) == key {
            prev.push(((s - 1) / 3) as u32)
        } else {
            prev
        }
    }
}

/// The faces incident to undirected edge `key`: a face appears once for each
/// of its sides that lies on the edge, faces in increasing order.
pub open spec fn incident_faces(tris: Seq<[u32; 3]>, key: (u32, u32)) -> Seq<u32> {
    faces_on_sides(tris, 3 * tris.len(), key)
}

/// `m` maps exactly the edges met in the first `s` sides to their face lists.
pub open spec fn incidence_upto(m: Map<(u32, u32), Seq<u32>>, tris: Seq<[u32; 3]>, s: nat) -> bool {
    forall|k: (u32, u32)|
        #![trigger m.contains_key(k)]
        #![trigger faces_on_sides(tris, s, k)]
        (m.contains_key(k) <==> faces_on_sides(tris, s, k).len() > 0) && (m.contains_key(k)
            ==> m[k] == faces_on_sides(tris, s, k))
}

/// Edge-to-face adjacency map.
pub struct EdgeMap {
    /// Faces incident to each undirected edge.
    pub edges: EdgeFaces,
}

impl View for EdgeMap {
    type V = Map<(u32, u32), Seq<u32>>;

    open spec fn view(&self) -> Map<(u32, u32), Seq<u32>> {
        edge_faces_contents(self.edges)
    }
}

/// `m` is the edge map of `tris`: its keys are the edges of the triangles,
/// each mapped to its incident faces.
pub open spec fn is_edge_map_of(m: Map<(u32, u32), Seq<u32>>, tris: Seq<[u32; 3]>) -> bool {
    incidence_upto(m, tris, 3 * tris.len())
}

/// The edge map of `tris`: every edge met by a triangle side, mapped to its
/// incident faces.
pub open spec fn edge_incidence(tris: Seq<[u32; 3]>) -> Map<(u32, u32), Seq<u32>> {
    Map::new(|k: (u32, u32)| incident_faces(tris, k).len() > 0, |k: (u32, u32)| incident_faces(tris, k))
}

/// An edge map of `tris` is its edge incidence map.
pub proof fn lemma_edge_map_is_incidence(m: Map<(u32, u32), Seq<u32>>, tris: Seq<[u32; 3]>)
    requires
        is_edge_map_of(m, tris),
    ensures
        m == edge_incidence(tris),
{
    assert(m =~= edge_incidence(tris)) by {
        assert forall|k: (u32, u32)| #[trigger] m.contains_key(k) <==> edge_incidence(tris).contains_key(k) by {
        }
        assert forall|k: (u32, u32)| m.contains_key(k) implies #[trigger] m[k] == edge_incidence(tris)[k] by {
        }
    }
}

/// The boundary edges of an edge map: those with exactly one incident face.
pub open spec fn boundary_edge_set(m: Map<(u32, u32), Seq<u32>>) -> Set<(u32, u32)> {
    m.dom().filter(|e: (u32, u32)| m[e].len() == 1)
}

/// The non-manifold edges of an edge map: those with more than two incident faces.
pub open spec fn nonmanifold_edge_set(m: Map<(u32, u32), Seq<u32>>) -> Set<(u32, u32)> {
    m.dom().filter(|e: (u32, u32)| m[e].len() > 2)
}

proof fn lemma_side_face(tris: Seq<[u32; 3]>, fi: int, k: int)
    requires
        0 <= fi,
        0 <= k < 3,
    ensures
        (3 * fi + k) / 3 == fi,
        (3 * fi + k) % 3 == k,
{
}

impl EdgeMap {
    /// Build the edge map from a mesh.
    pub fn build(mesh: &MeshIndices) -> (r: Self)
        requires
            mesh.tris@.len() <= u32::MAX,
        ensures
            is_edge_map_of(r@, mesh.tris@),
            r@ == edge_incidence(mesh.tris@),
    {
        let tris = &mesh.tris;
        let mut edges = EdgeFaces::new();
        let n = tris.len();
        for fi in 0..n
            invariant
                n == tris@.len(),
                n <= u32::MAX,
                incidence_upto(edge_faces_contents(edges), tris@, (3 * fi) as nat),
        {
            let tri = tris[fi];
            let face = fi as FaceId;
            let mut k: usize = 0;
            while k < 3
                invariant
                    n == tris@.len(),
                    fi < n <= u32::MAX,
                    tri == tris@[fi as int],
                    face == fi,
                    k <= 3,
                    incidence_upto(edge_faces_contents(edges), tris@, (3 * fi + k) as nat),
                decreases 3 - k,
            {
                let (a, b) = if k == 0 {
                    (tri[0], tri[1])
                } else if k == 1 {
                    (tri[1], tri[2])
                } else {
                    (tri[2], tri[0])
                };
                let key = edge_key(a, b);
                let ghost before = edge_faces_contents(edges);
                let ghost s = (3 * fi + k) as nat;
                proof {
                    lemma_side_face(tris@, fi as int, k as int);
                    assert(side_at(tris@, s as int) == (a, b));
                }
                edges.push_face(key, face);
                proof {
                    let after = edge_faces_contents(edges);
                    assert forall|e: (u32, u32)|
                        #![trigger after.contains_key(e)]
                        #![trigger faces_on_sides(tris@, (s + 1) as nat, e)]
                        (after.contains_key(e) <==> faces_on_sides(tris@, (s + 1) as nat, e).len()
                            > 0) && (after.contains_key(e) ==> after[e] == faces_on_sides(
                            tris@,
                            (s + 1) as nat,
                            e,
                        )) by {
                        assert(faces_on_sides(tris@, (s + 1) as nat, e) == (if spec_edge_key(a, b)
                            == e {
                            faces_on_sides(tris@, s, e).push(face)
                        } else {
                            faces_on_sides(tris@, s, e)
                        }));
                        if before.contains_key(e) {
                        }
                    }
                }
                k = k + 1;
            }
        }
        let r = EdgeMap { edges };
        proof {
            lemma_edge_map_is_incidence(r@, tris@);
        }
        r
    }

    /// The faces incident to edge `key`, in face order; `None` when no face
    /// uses the edge.
    pub fn faces_of(&self, key: (u32, u32)) -> (r: Option<Vec<u32>>)
        ensures
            match r {
                Some(v) => self@.contains_key(key) && v@ == self@[key],
                None => !self@.contains_key(key),
            },
    {
        self.edges.get(key)
    }

    /// Boundary edges (exactly one incident face), in no stated order.
    pub fn boundary_edges(&self) -> (r: Vec<(u32, u32)>)
        ensures
            r@.no_duplicates(),
            forall|e: (u32, u32)| r@.contains(e) <==> boundary_edge_set(self@).contains(e),
    {
        self.edges_of_class(EdgeClass::Boundary)
    }

    /// Non-manifold edges (more than two incident faces), in no stated order.
    pub fn nonmanifold_edges(&self) -> (r: Vec<(u32, u32)>)
        ensures
            r@.no_duplicates(),
            forall|e: (u32, u32)| r@.contains(e) <==> nonmanifold_edge_set(self@).contains(e),
    {
        self.edges_of_class(EdgeClass::NonManifold)
    }

    /// Count of open (boundary) edges.
    pub fn open_edge_count(&self) -> (n: usize)
        ensures
            n == boundary_edge_set(self@).len(),
            boundary_edge_set(self@).finite(),
    {
        let b = self.boundary_edges();
        proof {
            b@.unique_seq_to_set();
            assert(b@.to_set() =~= boundary_edge_set(self@));
        }
        b.len()
    }

    fn edges_of_class(&self, class: EdgeClass) -> (r: Vec<(u32, u32)>)
        ensures
            r@.no_duplicates(),
            forall|e: (u32, u32)|
                r@.contains(e) <==> (self@.contains_key(e) && class.holds(self@[e].len())),
    {
        let entries = self.edges.entries();
        let ghost m = self@;
        let mut out: Vec<(u32, u32)> = Vec::new();
        for i in 0..entries.len()
            invariant
                entries_cover(entries@, m),
                out@.no_duplicates(),
                forall|e: (u32, u32)|
                    out@.contains(e) <==> exists|j: int|
                        0 <= j < i && #[trigger] entries@[j].0 == e && class.holds(entries@[j].1@.len()),
        {
            let ghost prev = out@;
            if class.test(entries[i].1.len()) {
                proof {
                    assert forall|e: (u32, u32)| prev.contains(e) implies e != entries@[i as int].0 by {
                        let j = choose|j: int|
                            0 <= j < i && #[trigger] entries@[j].0 == e && class.holds(entries@[j].1@.len());
                        assert(entries@[j].0 != entries@[i as int].0);
                    }
                }
                out.push(entries[i].0);
                proof {
                    assert forall|a: int, b: int| 0 <= a < b < out@.len() implies out@[a] != out@[b] by {
                        if b == out@.len() - 1 {
                            assert(prev.contains(prev[a]));
                        } else {
                            assert(prev[a] != prev[b]);
                        }
                    }
                }
            }
            proof {
                assert forall|e: (u32, u32)|
                    out@.contains(e) <==> exists|j: int|
                        0 <= j < i + 1 && #[trigger] entries@[j].0 == e && class.holds(entries@[j].1@.len()) by {
                    if class.holds(entries@[i as int].1@.len()) {
                        lemma_seq_contains_after_push(prev, entries@[i as int].0, e);
                    }
                    if exists|j: int|
                        0 <= j < i + 1 && #[trigger] entries@[j].0 == e && class.holds(entries@[j].1@.len()) {
                        let j = choose|j: int|
                            0 <= j < i + 1 && #[trigger] entries@[j].0 == e && class.holds(entries@[j].1@.len());
                        if j < i {
                            assert(prev.contains(e));
                        }
                    }
                }
            }
        }
        proof {
            assert forall|e: (u32, u32)|
                out@.contains(e) <==> (m.contains_key(e) && class.holds(m[e].len())) by {
                if m.contains_key(e) && class.holds(m[e].len()) {
                    let j = choose|j: int| 0 <= j < entries@.len() && entries@[j].0 == e;
                    assert(entries@[j].0 == e);
                }
            }
        }
        out
    }
}

/// The two kinds of defective edge, by their number of incident faces.
enum EdgeClass {
    Boundary,
    NonManifold,
}

impl EdgeClass {
    spec fn holds(self, n: nat) -> bool {
        match self {
            EdgeClass::Boundary => n == 1,
            EdgeClass::NonManifold => n > 2,
        }
    }

    fn test(&self, n: usize) -> (b: bool)
        ensures
            b == self.holds(n as nat),
    {
        match self {
            EdgeClass::Boundary => n == 1,
            EdgeClass::NonManifold => n > 2,
        }
    }
}

/// `entries` lists every entry of `m` exactly once.
pub open spec fn entries_cover(entries: Seq<((u32, u32), Vec<u32>)>, m: Map<(u32, u32), Seq<u32>>) -> bool {
    &&& forall|i: int|
        #![trigger entries[i]]
        0 <= i < entries.len() ==> m.contains_key(entries[i].0) && m[entries[i].0] == entries[i].1@
    &&& forall|i: int, j: int|
        #![trigger entries[i], entries[j]]
        0 <= i < j < entries.len() ==> entries[i].0 != entries[j].0
    &&& forall|k: (u32, u32)|
        #[trigger] m.contains_key(k) ==> exists|i: int| 0 <= i < entries.len() && entries[i].0 == k
}

/// `(a, b)` is a side of some triangle, walked `a → b` in the triangle's
/// winding, and its undirected edge has exactly one incident face.
pub open spec fn is_boundary_side(tris: Seq<[u32; 3]>, a: u32, b: u32) -> bool {
    &&& exists|s: int| 0 <= s < 3 * tris.len() && #[trigger] side_at(tris, s) == (a, b)
    &&& incident_faces(tris, spec_edge_key(a, b)).len() == 1
}

/// Every target listed in `h` forms a boundary side with its source.
pub open spec fn half_edges_ok(h: Map<u32, Seq<u32>>, tris: Seq<[u32; 3]>) -> bool {
    forall|a: u32, j: int|
        h.contains_key(a) && 0 <= j < h[a].len() ==> is_boundary_side(tris, a, #[trigger] h[a][j])
}

/// Step `k` of loop `li`: the half-edge from its `k`-th to its `k + 1`-th vertex.
pub open spec fn loop_step(loops: Seq<Vec<u32>>, li: int, k: int) -> (u32, u32) {
    (loops[li]@[k], loops[li]@[k + 1])
}

/// The boundary half-edge table of the first `s` sides of `tris`: each
/// vertex mapped to the ends of the boundary sides leaving it, in side
/// order.
pub open spec fn half_map_upto(tris: Seq<[u32; 3]>, s: nat) -> Map<u32, Seq<u32>>
    decreases s,
{
    if s == 0 {
        Map::empty()
    } else {
        let m = half_map_upto(tris, (s - 1) as nat);
        let side = side_at(tris, s - 1);
        if incident_faces(tris, spec_edge_key(side.0, side.1)).len() == 1 {
            m.insert(side.0, (if m.contains_key(side.0) { m[side.0] } else { Seq::empty() }).push(side.1))
        } else {
            m
        }
    }
}

/// The boundary half-edge table of `tris`.
pub open spec fn half_map(tris: Seq<[u32; 3]>) -> Map<u32, Seq<u32>> {
    half_map_upto(tris, 3 * tris.len())
}

/// Directed boundary half-edges of `mesh`, grouped by their source vertex,
/// each listed in face order.
fn boundary_half_edges(mesh: &MeshIndices, edge_map: &EdgeMap) -> (half: HalfEdges)
    requires
        is_edge_map_of(edge_map@, mesh.tris@),
    ensures
        half_edges_ok(half_edges_contents(half), mesh.tris@),
        half_edges_contents(half) == half_map(mesh.tris@),
{
    let tris = &mesh.tris;
    let n = tris.len();
    let mut half = HalfEdges::new();
    for fi in 0..n
        invariant
            n == tris@.len(),
            is_edge_map_of(edge_map@, tris@),
            half_edges_ok(half_edges_contents(half), tris@),
            half_edges_contents(half) == half_map_upto(tris@, (3 * fi) as nat),
    {
        let tri = tris[fi];
        let mut k: usize = 0;
        while k < 3
            invariant
                n == tris@.len(),
                fi < n,
                tri == tris@[fi as int],
                k <= 3,
                is_edge_map_of(edge_map@, tris@),
                half_edges_ok(half_edges_contents(half), tris@),
                half_edges_contents(half) == half_map_upto(tris@, (3 * fi + k) as nat),
            decreases 3 - k,
        {
            let (a, b) = if k == 0 {
                (tri[0], tri[1])
            } else if k == 1 {
                (tri[1], tri[2])
            } else {
                (tri[2], tri[0])
            };
            let key = edge_key(a, b);
            proof {
                lemma_side_face(tris@, fi as int, k as int);
                assert(side_at(tris@, 3 * fi + k) == (a, b));
                assert(half_map_upto(tris@, (3 * fi + k + 1) as nat) == (if incident_faces(tris@, key).len() == 1 {
                    half_map_upto(tris@, (3 * fi + k) as nat).insert(a, (if half_map_upto(tris@, (3 * fi + k) as nat).contains_key(a) {
                        half_map_upto(tris@, (3 * fi + k) as nat)[a]
                    } else {
                        Seq::empty()
                    }).push(b))
                } else {
                    half_map_upto(tris@, (3 * fi + k) as nat)
                }));
            }
            match edge_map.edges.get(key) {
                Some(faces) => {
                    if faces.len() == 1 {
                        let ghost before = half_edges_contents(half);
                        proof {
                            let s = 3 * fi + k;
                            lemma_side_face(tris@, fi as int, k as int);
                            assert(side_at(tris@, s as int) == (a, b));
                            assert(faces_on_sides(tris@, 3 * tris@.len(), key).len() > 0);
                            assert(is_boundary_side(tris@, a, b));
                        }
                        half.push_target(a, b);
                        proof {
                            let after = half_edges_contents(half);
                            assert forall|x: u32, j: int|
                                after.contains_key(x) && 0 <= j < after[x].len() implies is_boundary_side(
                                tris@,
                                x,
                                #[trigger] after[x][j],
                            ) by {
                                if x == a && j < after[x].len() - 1 {
                                    assert(after[x][j] == before[x][j]);
                                }
                            }
                        }
                    }
                },
                None => {},
            }
            k = k + 1;
        }
    }
    half
}

/// The pairs `(a, b)` of table `h`, source by source in the order `keys`,
/// the targets of each source in their listed order.
pub open spec fn pairs_of(h: Map<u32, Seq<u32>>, keys: Seq<u32>) -> Seq<(u32, u32)>
    decreases keys.len(),
{
    if keys.len() == 0 {
        Seq::empty()
    } else {
        pairs_of(h, keys.drop_last()) + h[keys.last()].map_values(|b: u32| (keys.last(), b))
    }
}

/// `pairs` lists the pairs of table `h`, its sources taken once each in
/// some order.
pub open spec fn enumerates(pairs: Seq<(u32, u32)>, h: Map<u32, Seq<u32>>) -> bool {
    exists|keys: Seq<u32>|
        keys.no_duplicates() && (forall|a: u32| keys.contains(a) <==> #[trigger] h.contains_key(a))
            && pairs == pairs_of(h, keys)
}

/// Every directed boundary half-edge listed in `half`, as `(from, to)` pairs,
/// in the order in which the table is walked.
fn half_edge_pairs(half: &HalfEdges, Ghost(tris): Ghost<Seq<[u32; 3]>>) -> (r: Vec<(u32, u32)>)
    requires
        half_edges_ok(half_edges_contents(*half), tris),
    ensures
        forall|i: int| 0 <= i < r@.len() ==> is_boundary_side(tris, r@[i].0, #[trigger] r@[i].1),
        enumerates(r@, half_edges_contents(*half)),
{
    let entries = half.entries();
    let ghost h = half_edges_contents(*half);
    let ghost keys = entries@.map_values(|e: (u32, Vec<u32>)| e.0);
    let mut out: Vec<(u32, u32)> = Vec::new();
    for i in 0..entries.len()
        invariant
            half_edges_ok(h, tris),
            keys == entries@.map_values(|e: (u32, Vec<u32>)| e.0),
            forall|x: int|
                #![trigger entries@[x]]
                0 <= x < entries@.len() ==> h.contains_key(entries@[x].0) && h[entries@[x].0]
                    == entries@[x].1@,
            forall|x: int| 0 <= x < out@.len() ==> is_boundary_side(tris, out@[x].0, #[trigger] out@[x].1),
            out@ == pairs_of(h, keys.subrange(0, i as int)),
    {
        let a = entries[i].0;
        let targets = &entries[i].1;
        let ghost before = out@;
        proof {
            assert(keys.subrange(0, i + 1).drop_last() =~= keys.subrange(0, i as int));
            assert(keys.subrange(0, i + 1).last() == a);
        }
        for j in 0..targets.len()
            invariant
                half_edges_ok(h, tris),
                h.contains_key(a),
                h[a] == targets@,
                forall|x: int|
                    0 <= x < out@.len() ==> is_boundary_side(tris, out@[x].0, #[trigger] out@[x].1),
                out@ == before + targets@.subrange(0, j as int).map_values(|b: u32| (a, b)),
        {
            proof {
                assert(is_boundary_side(tris, a, h[a][j as int]));
                assert(targets@.subrange(0, j + 1).map_values(|b: u32| (a, b)) =~= targets@.subrange(
                    0,
                    j as int,
                ).map_values(|b: u32| (a, b)).push((a, targets@[j as int])));
            }
            out.push((a, targets[j]));
        }
        proof {
            assert(targets@.subrange(0, targets@.len() as int) =~= targets@);
            assert(out@ =~= pairs_of(h, keys.subrange(0, i + 1)));
        }
    }
    proof {
        assert(keys.subrange(0, entries@.len() as int) =~= keys);
        assert(keys.no_duplicates()) by {
            assert forall|x: int, y: int| 0 <= x < keys.len() && 0 <= y < keys.len() && x != y implies keys[x]
                != keys[y] by {
                if x < y {
                    assert(entries@[x].0 != entries@[y].0);
                } else {
                    assert(entries@[y].0 != entries@[x].0);
                }
            }
        }
        assert forall|a: u32| keys.contains(a) <==> #[trigger] h.contains_key(a) by {
            if h.contains_key(a) {
                let x = choose|x: int| 0 <= x < entries@.len() && entries@[x].0 == a;
                assert(keys[x] == a);
            }
            if keys.contains(a) {
                let x = choose|x: int| 0 <= x < keys.len() && keys[x] == a;
                assert(entries@[x].0 == a);
            }
        }
    }
    out
}

/// The first target `c` of `cands`, from position `j` on, whose half-edge
/// `from → c` is not in `visited`.
pub open spec fn first_open(from: u32, cands: Seq<u32>, visited: Set<(u32, u32)>, j: int) -> Option<u32>
    decreases cands.len() - j,
{
    if j < 0 || j >= cands.len() {
        None
    } else if !visited.contains((from, cands[j])) {
        Some(cands[j])
    } else {
        first_open(from, cands, visited, j + 1)
    }
}

/// The rest of a walk that started at `start`, has walked `verts` (ending
/// at `cur`) and is about to take the half-edge `cur → next`: the vertices
/// of the finished walk and the half-edges used by then. The walk takes the
/// half-edge, then leaves the reached vertex by its first unused half-edge
/// in table `h`; it stops when there is none, when that half-edge leads back
/// to `start`, or when it holds more than `vc + 2` vertices.
pub open spec fn walk_loop(
    h: Map<u32, Seq<u32>>,
    vc: nat,
    visited: Set<(u32, u32)>,
    start: u32,
    cur: u32,
    next: u32,
    verts: Seq<u32>,
) -> (Seq<u32>, Set<(u32, u32)>)
    decreases vc + 3 - verts.len(),
{
    let visited2 = visited.insert((cur, next));
    let verts2 = verts.push(next);
    if !h.contains_key(next) {
        (verts2, visited2)
    } else {
        match first_open(next, h[next], visited2, 0) {
            None => (verts2, visited2),
            Some(c) => if c == start || verts2.len() > vc + 2 {
                (verts2, visited2)
            } else {
                walk_loop(h, vc, visited2, start, next, c, verts2)
            },
        }
    }
}

/// A finished walk, without its last vertex when that repeats the first.
pub open spec fn trim_closing(v: Seq<u32>) -> Seq<u32> {
    if v.len() > 0 && v[0] == v[v.len() - 1] {
        v.drop_last()
    } else {
        v
    }
}

/// The loops found by walking from each half-edge of `starts` in turn that
/// no earlier walk used, and the half-edges used by then; walks of fewer than
/// three vertices are not kept.
pub open spec fn walk_all(h: Map<u32, Seq<u32>>, vc: nat, starts: Seq<(u32, u32)>) -> (Seq<Seq<u32>>, Set<(u32, u32)>)
    decreases starts.len(),
{
    if starts.len() == 0 {
        (Seq::empty(), Set::empty())
    } else {
        let prev = walk_all(h, vc, starts.drop_last());
        let (a, b) = starts.last();
        if prev.1.contains((a, b)) {
            prev
        } else {
            let w = walk_loop(h, vc, prev.1, a, a, b, seq![a]);
            if w.0.len() >= 3 {
                (prev.0.push(trim_closing(w.0)), w.1)
            } else {
                (prev.0, w.1)
            }
        }
    }
}

/// Extract boundary loops by walking boundary half-edges.
///
/// Each loop starts at a boundary half-edge that no earlier walk used and
/// follows, from each reached vertex, the first unused boundary half-edge
/// leaving it (see [`walk_loop`]); walks of fewer than three vertices are
/// dropped, and a walk whose last vertex repeats its first loses that last
/// vertex. The walks start from the half-edges in the order in which the
/// half-edge table is walked, which is not stated: the loops are those of
/// [`walk_all`] for some listing of the table, source by source. Every
/// outcome also satisfies: each loop has at least two vertices, each step of
/// a loop is a boundary half-edge of the mesh, and no half-edge is stepped
/// twice over all loops. When the boundary half-edges form simple cycles,
/// the loops are those cycles, each once (see
/// [`lemma_boundary_cycles_are_the_loops`](crate::boundary::lemma_boundary_cycles_are_the_loops)).
pub fn extract_boundary_loops(mesh: &MeshIndices) -> (loops: Vec<Vec<u32>>)
    requires
        mesh.tris@.len() <= u32::MAX,
    ensures
        forall|li: int| 0 <= li < loops@.len() ==> #[trigger] loops@[li]@.len() >= 2,
        forall|li: int, k: int|
            0 <= li < loops@.len() && 0 <= k < loops@[li]@.len() - 1 ==> is_boundary_side(
                mesh.tris@,
                #[trigger] loop_step(loops@, li, k).0,
                loop_step(loops@, li, k).1,
            ),
        forall|li1: int, k1: int, li2: int, k2: int|
            0 <= li1 < loops@.len() && 0 <= k1 < loops@[li1]@.len() - 1 && 0 <= li2
                < loops@.len() && 0 <= k2 < loops@[li2]@.len() - 1 && (li1 != li2 || k1 != k2)
                ==> #[trigger] loop_step(loops@, li1, k1) != #[trigger] loop_step(loops@, li2, k2),
        exists|starts: Seq<(u32, u32)>|
            enumerates(starts, half_map(mesh.tris@)) && loops@.map_values(|v: Vec<u32>| v@) == walk_all(
                half_map(mesh.tris@),
                mesh.vertex_count as nat,
                starts,
            ).0,
{
    let ghost tris = mesh.tris@;
    let edge_map = EdgeMap::build(mesh);
    let half = boundary_half_edges(mesh, &edge_map);
    let starts = half_edge_pairs(&half, Ghost(tris));
    let vertex_count = mesh.vertex_count;

    let mut visited = VisitedEdges::new();
    let mut loops: Vec<Vec<u32>> = Vec::new();
    let ghost mut used: Seq<(u32, u32)> = Seq::empty();
    let ghost mut offs: Seq<int> = Seq::empty();

    for si in 0..starts.len()
        invariant
            vertex_count == mesh.vertex_count,
            tris == mesh.tris@,
            half_edges_ok(half_edges_contents(half), tris),
            forall|i: int|
                0 <= i < starts@.len() ==> is_boundary_side(tris, starts@[i].0, #[trigger] starts@[i].1),
            walk_state(visited_edges_contents(visited), used, tris),
            loops_state(loops@, offs, used),
            walk_all(half_edges_contents(half), vertex_count as nat, starts@.subrange(0, si as int)) == (
                loops@.map_values(|v: Vec<u32>| v@),
                visited_edges_contents(visited).dom(),
            ),
    {
        let (start_a, start_b) = starts[si];
        let ghost h = half_edges_contents(half);
        let ghost vc = vertex_count as nat;
        let ghost v_start = visited_edges_contents(visited).dom();
        let ghost loops_start = loops@;
        proof {
            assert(starts@.subrange(0, si + 1).drop_last() =~= starts@.subrange(0, si as int));
            assert(starts@.subrange(0, si + 1).last() == (start_a, start_b));
            if visited_edges_contents(visited).contains_key((start_a, start_b)) {
                assert(used.contains((start_a, start_b)));
            }
        }
        let seen = match visited.get((start_a, start_b)) {
            Some(v) => v,
            None => false,
        };
        if !seen {
            let ghost w0 = used.len();
            let ghost used0 = used;
            let mut loop_verts: Vec<u32> = Vec::new();
            loop_verts.push(start_a);
            let mut cur = start_a;
            let mut next = start_b;
            loop
                invariant_except_break
                    loop_verts@.len() >= 1,
                    loop_verts@.len() <= vertex_count + 2,
                    loop_verts@[loop_verts@.len() - 1] == cur,
                    is_boundary_side(tris, cur, next),
                    !used.contains((cur, next)),
                    used.len() == w0 + loop_verts@.len() - 1,
                    walk_loop(h, vc, v_start, start_a, start_a, start_b, seq![start_a]) == walk_loop(
                        h,
                        vc,
                        visited_edges_contents(visited).dom(),
                        start_a,
                        cur,
                        next,
                        loop_verts@,
                    ),
                invariant
                    tris == mesh.tris@,
                    vertex_count == mesh.vertex_count,
                    h == half_edges_contents(half),
                    vc == vertex_count as nat,
                    half_edges_ok(half_edges_contents(half), tris),
                    walk_state(visited_edges_contents(visited), used, tris),
                    loops_state(loops@, offs, used0),
                    w0 == used0.len(),
                    used.len() >= w0,
                    forall|i: int| 0 <= i < w0 ==> #[trigger] used[i] == used0[i],
                    loop_verts@.len() >= 1,
                    loop_verts@[0] == start_a,
                    forall|k: int|
                        0 <= k < loop_verts@.len() - 1 ==> #[trigger] used[w0 + k] == (
                        loop_verts@[k],
                        loop_verts@[k + 1],
                    ),
                ensures
                    loop_verts@.len() >= 2,
                    used.len() == w0 + loop_verts@.len() - 1,
                    walk_loop(h, vc, v_start, start_a, start_a, start_b, seq![start_a]) == (
                        loop_verts@,
                        visited_edges_contents(visited).dom(),
                    ),
                decreases vertex_count + 2 - loop_verts@.len(),
            {
                let ghost visited_before = visited_edges_contents(visited);
                let ghost verts_before = loop_verts@;
                let ghost next0 = next;
                proof {
                    assert(visited_before.insert((cur, next), true).dom() =~= visited_before.dom().insert((cur, next)));
                }
                visited.insert((cur, next), true);
                proof {
                    lemma_walk_extend(visited_before, visited_edges_contents(visited), used, tris, cur, next);
                    used = used.push((cur, next));
                }
                loop_verts.push(next);
                let candidates = match half.get(next) {
                    Some(c) => c,
                    None => {
                        break;
                    },
                };
                let ghost v2 = visited_edges_contents(visited).dom();
                let mut advanced = false;
                let mut j: usize = 0;
                while j < candidates.len() && !advanced
                    invariant
                        j <= candidates@.len(),
                        next0 == loop_verts@[loop_verts@.len() - 1],
                        v2 == visited_edges_contents(visited).dom(),
                        !advanced ==> first_open(next0, candidates@, v2, 0) == first_open(
                            next0,
                            candidates@,
                            v2,
                            j as int,
                        ),
                        advanced ==> first_open(next0, candidates@, v2, 0) == Some(next) && cur == next0,
                        loop_verts@.len() >= 1,
                    half_edges_contents(half).contains_key(loop_verts@[loop_verts@.len() - 1]),
                        candidates@ == half_edges_contents(half)[loop_verts@[loop_verts@.len() - 1]],
                        half_edges_ok(half_edges_contents(half), tris),
                        walk_state(visited_edges_contents(visited), used, tris),
                        advanced ==> cur == loop_verts@[loop_verts@.len() - 1] && is_boundary_side(
                            tris,
                            cur,
                            next,
                        ) && !used.contains((cur, next)),
                        !advanced ==> next == loop_verts@[loop_verts@.len() - 1],
                    decreases candidates@.len() - j,
                {
                    let cand = candidates[j];
                    let done = match visited.get((next, cand)) {
                        Some(v) => v,
                        None => false,
                    };
                    proof {
                        if visited_edges_contents(visited).contains_key((next, cand)) {
                            assert(used.contains((next, cand)));
                        }
                        assert(done == v2.contains((next0, cand)));
                    }
                    if !done {
                        proof {
                            assert(is_boundary_side(tris, next, candidates@[j as int]));
                        }
                        cur = next;
                        next = cand;
                        advanced = true;
                    }
                    j = j + 1;
                }
                if !advanced || next == start_a {
                    break;
                }
                if loop_verts.len() - 2 > vertex_count {
                    break;
                }
            }
            let ghost walk_end = (loop_verts@, visited_edges_contents(visited).dom());
            if loop_verts.len() >= 3 {
                let ghost walked = loop_verts@;
                if loop_verts[0] == loop_verts[loop_verts.len() - 1] {
                    loop_verts.pop();
                }
                let ghost lv = loop_verts@;
                let ghost old_loops = loops@;
                let ghost old_offs = offs;
                proof {
                    lemma_loops_state_grow(loops@, offs, used0, used);
                    assert forall|k: int| 0 <= k < lv.len() - 1 implies used[w0 + k] == (
                        #[trigger] lv[k],
                        lv[k + 1],
                    ) by {
                        assert(lv[k] == walked[k] && lv[k + 1] == walked[k + 1]);
                        assert(used[w0 + k] == (walked[k], walked[k + 1]));
                    }
                    offs = offs.push(w0 as int);
                }
                loops.push(loop_verts);
                proof {
                    let nl = loops@;
                    let last = old_loops.len() as int;
                    assert(nl[last]@ == lv);
                    assert forall|li: int|
                        0 <= li < nl.len() implies #[trigger] nl[li]@.len() >= 2 && 0 <= offs[li]
                            && offs[li] + nl[li]@.len() - 1 <= used.len() by {
                        if li < last {
                            assert(nl[li] == old_loops[li]);
                        }
                    }
                    assert forall|li: int, k: int|
                        0 <= li < nl.len() && 0 <= k < nl[li]@.len() - 1 implies #[trigger] loop_step(
                        nl,
                        li,
                        k,
                    ) == used[offs[li] + k] by {
                        if li < last {
                            assert(nl[li] == old_loops[li]);
                            assert(loop_step(old_loops, li, k) == used[old_offs[li] + k]);
                        } else {
                            assert(loop_step(nl, li, k) == (lv[k], lv[k + 1]));
                        }
                    }
                    assert forall|li1: int, li2: int|
                        0 <= li1 < li2 < nl.len() implies offs[li1] + (#[trigger] nl[li1])@.len() - 1
                            <= #[trigger] offs[li2] by {
                        assert(nl[li1] == old_loops[li1]);
                        if li2 < last {
                            assert(nl[li2] == old_loops[li2]);
                            assert(old_offs[li1] + old_loops[li1]@.len() - 1 <= old_offs[li2]);
                        }
                    }
                }
            } else {
                proof {
                    lemma_loops_state_grow(loops@, offs, used0, used);
                }
            }
        }
    }
    proof {
        assert forall|li1: int, k1: int, li2: int, k2: int|
            0 <= li1 < loops@.len() && 0 <= k1 < loops@[li1]@.len() - 1 && 0 <= li2
                < loops@.len() && 0 <= k2 < loops@[li2]@.len() - 1 && (li1 != li2 || k1 != k2)
                implies #[trigger] loop_step(loops@, li1, k1) != #[trigger] loop_step(
            loops@,
            li2,
            k2,
        ) by {
            assert(loop_step(loops@, li1, k1) == used[offs[li1] + k1]);
            assert(loop_step(loops@, li2, k2) == used[offs[li2] + k2]);
            if li1 < li2 {
                assert(offs[li1] + k1 < offs[li2] + k2);
            } else if li2 < li1 {
                assert(offs[li2] + k2 < offs[li1] + k1);
            }
        }
    }
    proof {
        assert(starts@.subrange(0, starts@.len() as int) =~= starts@);
        assert(enumerates(starts@, half_map(tris)) && loops@.map_values(|v: Vec<u32>| v@) == walk_all(
            half_map(tris),
            vertex_count as nat,
            starts@,
        ).0);
    }
    loops
}

/// The walked half-edges `used` are distinct boundary sides, and `visited`
/// marks exactly them.
spec fn walk_state(visited: Map<(u32, u32), bool>, used: Seq<(u32, u32)>, tris: Seq<[u32; 3]>) -> bool {
    &&& used.no_duplicates()
    &&& forall|i: int| 0 <= i < used.len() ==> is_boundary_side(tris, (#[trigger] used[i]).0, used[i].1)
    &&& forall|key: (u32, u32)|
        #[trigger] visited.contains_key(key) ==> used.contains(key) && visited[key]
    &&& forall|key: (u32, u32)| #[trigger] used.contains(key) ==> visited.contains_key(key)
}

/// Loop `li` has at least two vertices and its steps are the walked
/// half-edges from `offs[li]` on; loops use disjoint stretches of `used`.
spec fn loops_state(loops: Seq<Vec<u32>>, offs: Seq<int>, used: Seq<(u32, u32)>) -> bool {
    &&& offs.len() == loops.len()
    &&& forall|li: int|
        0 <= li < loops.len() ==> #[trigger] loops[li]@.len() >= 2 && 0 <= offs[li] && offs[li]
            + loops[li]@.len() - 1 <= used.len()
    &&& forall|li: int, k: int|
        0 <= li < loops.len() && 0 <= k < loops[li]@.len() - 1 ==> #[trigger] loop_step(
            loops,
            li,
            k,
        ) == used[offs[li] + k]
    &&& forall|li1: int, li2: int|
        0 <= li1 < li2 < loops.len() ==> offs[li1] + (#[trigger] loops[li1])@.len() - 1
            <= #[trigger] offs[li2]
}

proof fn lemma_walk_extend(
    before: Map<(u32, u32), bool>,
    after: Map<(u32, u32), bool>,
    used: Seq<(u32, u32)>,
    tris: Seq<[u32; 3]>,
    cur: u32,
    next: u32,
)
    requires
        walk_state(before, used, tris),
        after == before.insert((cur, next), true),
        is_boundary_side(tris, cur, next),
        !used.contains((cur, next)),
    ensures
        walk_state(after, used.push((cur, next)), tris),
{
    let u2 = used.push((cur, next));
    assert forall|a: int, b: int| 0 <= a < b < u2.len() implies u2[a] != u2[b] by {
        if b == used.len() {
            assert(used.contains(used[a]));
        } else {
            assert(used[a] != used[b]);
        }
    }
    assert forall|key: (u32, u32)| #[trigger] after.contains_key(key) implies u2.contains(key)
        && after[key] by {
        lemma_seq_contains_after_push(used, (cur, next), key);
    }
    assert forall|key: (u32, u32)| #[trigger] u2.contains(key) implies after.contains_key(key) by {
        lemma_seq_contains_after_push(used, (cur, next), key);
    }
}

proof fn lemma_loops_state_grow(
    loops: Seq<Vec<u32>>,
    offs: Seq<int>,
    used0: Seq<(u32, u32)>,
    used: Seq<(u32, u32)>,
)
    requires
        loops_state(loops, offs, used0),
        used0.len() <= used.len(),
        forall|i: int| 0 <= i < used0.len() ==> #[trigger] used[i] == used0[i],
    ensures
        loops_state(loops, offs, used),
{
    assert forall|li: int, k: int|
        0 <= li < loops.len() && 0 <= k < loops[li]@.len() - 1 implies #[trigger] loop_step(
        loops,
        li,
        k,
    ) == used[offs[li] + k] by {
        assert(used[offs[li] + k] == used0[offs[li] + k]);
    }
}

/// Faces `f` and `g` share an edge: both occur, at different positions, in
/// the incident-face list of one undirected edge.
pub open spec fn faces_adjacent(tris: Seq<[u32; 3]>, f: u32, g: u32) -> bool {
    exists|key: (u32, u32), i: int, j: int|
        0 <= i < incident_faces(tris, key).len() && 0 <= j < incident_faces(tris, key).len() && i
            != j && #[trigger] incident_faces(tris, key)[i] == f && #[trigger] incident_faces(
            tris,
            key,
        )[j] == g
}

proof fn lemma_incident_bound(tris: Seq<[u32; 3]>, s: nat, key: (u32, u32))
    requires
        s <= 3 * tris.len(),
        tris.len() <= u32::MAX,
    ensures
        forall|p: int|
            0 <= p < faces_on_sides(tris, s, key).len() ==> (#[trigger] faces_on_sides(
                tris,
                s,
                key,
            )[p] as int) * 3 < s,
    decreases s,
{
    if s > 0 {
        lemma_incident_bound(tris, (s - 1) as nat, key);
        let prev = faces_on_sides(tris, (s - 1) as nat, key);
        let side = side_at(tris, s - 1);
        if spec_edge_key(side.0, side.1) == key {
            let f = ((s - 1) / 3) as u32;
            assert(((s - 1) / 3) < tris.len());
            assert(f as int == (s - 1) / 3);
            assert forall|p: int|
                0 <= p < prev.push(f).len() implies (#[trigger] prev.push(f)[p] as int) * 3 < s by {
                if p < prev.len() {
                    assert(prev.push(f)[p] == prev[p]);
                }
            }
        }
    }
}

/// Every face listed on an edge is a face of the mesh.
pub(crate) proof fn lemma_incident_faces_in_range(tris: Seq<[u32; 3]>, key: (u32, u32))
    requires
        tris.len() <= u32::MAX,
    ensures
        forall|p: int|
            0 <= p < incident_faces(tris, key).len() ==> (#[trigger] incident_faces(tris, key)[p])
                < tris.len(),
{
    lemma_incident_bound(tris, 3 * tris.len(), key);
}

/// Face adjacency lists: `adj[f]` lists the faces sharing an edge with `f`.
fn face_adjacency(mesh: &MeshIndices, edge_map: &EdgeMap) -> (adj: Vec<Vec<u32>>)
    requires
        mesh.tris@.len() <= u32::MAX,
        is_edge_map_of(edge_map@, mesh.tris@),
    ensures
        adj@.len() == mesh.tris@.len(),
        forall|f: int, x: int|
            0 <= f < adj@.len() && 0 <= x < adj@[f]@.len() ==> (#[trigger] adj@[f]@[x])
                < mesh.tris@.len() && faces_adjacent(mesh.tris@, f as u32, adj@[f]@[x]),
        forall|f: u32, g: u32|
            #[trigger] faces_adjacent(mesh.tris@, f, g) ==> f < adj@.len() && adj@[f as int]@.contains(g),
{
    let ghost tris = mesh.tris@;
    let n = mesh.tris.len();
    let mut adj: Vec<Vec<u32>> = Vec::new();
    for f in 0..n
        invariant
            adj@.len() == f,
            forall|x: int| 0 <= x < f ==> (#[trigger] adj@[x])@.len() == 0,
    {
        adj.push(Vec::new());
    }
    let entries = edge_map.edges.entries();
    let ghost m = edge_map@;
    proof {
        assert forall|x: int, p: int|
            0 <= x < entries@.len() && 0 <= p < entries@[x].1@.len() implies (
            #[trigger] entries@[x].1@[p]) < n by {
            let key = entries@[x].0;
            assert(m.contains_key(key));
            assert(entries@[x].1@ == incident_faces(tris, key));
            lemma_incident_faces_in_range(tris, key);
        }
    }
    for e in 0..entries.len()
        invariant
            n == tris.len(),
            tris == mesh.tris@,
            n <= u32::MAX,
            adj@.len() == n,
            is_edge_map_of(m, tris),
            entries_cover(entries@, m),
            forall|x: int, p: int|
                0 <= x < entries@.len() && 0 <= p < entries@[x].1@.len() ==> (
                #[trigger] entries@[x].1@[p]) < n,
            adj_sound(adj@, tris),
            forall|x: int, p: int, q: int|
                0 <= x < e && 0 <= p < entries@[x].1@.len() && 0 <= q < entries@[x].1@.len() && p
                    != q ==> adj@[(#[trigger] entries@[x].1@[p]) as int]@.contains(
                    #[trigger] entries@[x].1@[q],
                ),
    {
        let faces = &entries[e].1;
        let ghost key = entries@[e as int].0;
        proof {
            assert(m.contains_key(key));
            assert(faces@ == incident_faces(tris, key));
            lemma_incident_faces_in_range(tris, key);
        }
        let len = faces.len();
        for i in 0..len
            invariant
                n == tris.len(),
                n <= u32::MAX,
                adj@.len() == n,
                e < entries@.len(),
                forall|x: int, p: int|
                    0 <= x < entries@.len() && 0 <= p < entries@[x].1@.len() ==> (
                    #[trigger] entries@[x].1@[p]) < n,
                len == faces@.len(),
                faces@ == incident_faces(tris, key),
                forall|p: int| 0 <= p < faces@.len() ==> (#[trigger] faces@[p]) < n,
                adj_sound(adj@, tris),
                forall|x: int, p: int, q: int|
                    0 <= x < e && 0 <= p < entries@[x].1@.len() && 0 <= q < entries@[x].1@.len()
                        && p != q ==> adj@[(#[trigger] entries@[x].1@[p]) as int]@.contains(
                        #[trigger] entries@[x].1@[q],
                    ),
                forall|p: int, q: int|
                    0 <= p < len && 0 <= q < len && p != q && (p < i || q < i) ==> adj@[(
                    #[trigger] faces@[p]) as int]@.contains(#[trigger] faces@[q]),
        {
            for j in (i + 1)..len
                invariant
                    n == tris.len(),
                    n <= u32::MAX,
                    adj@.len() == n,
                    i < len,
                    e < entries@.len(),
                    forall|x: int, p: int|
                        0 <= x < entries@.len() && 0 <= p < entries@[x].1@.len() ==> (
                        #[trigger] entries@[x].1@[p]) < n,
                    len == faces@.len(),
                    faces@ == incident_faces(tris, key),
                    forall|p: int| 0 <= p < faces@.len() ==> (#[trigger] faces@[p]) < n,
                    adj_sound(adj@, tris),
                    forall|x: int, p: int, q: int|
                        0 <= x < e && 0 <= p < entries@[x].1@.len() && 0 <= q
                            < entries@[x].1@.len() && p != q ==> adj@[(
                        #[trigger] entries@[x].1@[p]) as int]@.contains(#[trigger] entries@[x].1@[q]),
                    forall|p: int, q: int|
                        0 <= p < len && 0 <= q < len && p != q && (p < i || q < i || (p == i && q
                            < j) || (q == i && p < j)) ==> adj@[(#[trigger] faces@[p]) as int]@.contains(
                            #[trigger] faces@[q],
                        ),
            {
                let fi = faces[i];
                let fj = faces[j];
                proof {
                    assert(faces_adjacent(tris, fi, fj)) by {
                        assert(incident_faces(tris, key)[i as int] == fi);
                        assert(incident_faces(tris, key)[j as int] == fj);
                    }
                    assert(faces_adjacent(tris, fj, fi)) by {
                        assert(incident_faces(tris, key)[i as int] == fi);
                        assert(incident_faces(tris, key)[j as int] == fj);
                    }
                }
                let ghost a0 = adj@;
                adj[fi as usize].push(fj);
                let ghost a1 = adj@;
                adj[fj as usize].push(fi);
                proof {
                    lemma_adj_push(a0, a1, fi, fj, tris);
                    lemma_adj_push(a1, adj@, fj, fi, tris);
                    assert forall|x: int, p: int, q: int|
                        0 <= x < e && 0 <= p < entries@[x].1@.len() && 0 <= q
                            < entries@[x].1@.len() && p != q implies adj@[(
                        #[trigger] entries@[x].1@[p]) as int]@.contains(#[trigger] entries@[x].1@[q]) by {
                        assert(a0[(entries@[x].1@[p]) as int]@.contains(entries@[x].1@[q]));
                        assert(a1[(entries@[x].1@[p]) as int]@.contains(entries@[x].1@[q]));
                    }
                    assert forall|p: int, q: int|
                        0 <= p < len && 0 <= q < len && p != q && (p < i || q < i || (p == i && q
                            < j + 1) || (q == i && p < j + 1)) implies adj@[(#[trigger] faces@[p]) as int]@.contains(
                            #[trigger] faces@[q],
                        ) by {
                        if (p == i && q == j) {
                        } else if (q == i && p == j) {
                        } else {
                            assert(a0[(faces@[p]) as int]@.contains(faces@[q]));
                            assert(a1[(faces@[p]) as int]@.contains(faces@[q]));
                        }
                    }
                }
            }
        }
    }
    proof {
        assert forall|f: u32, g: u32| #[trigger] faces_adjacent(tris, f, g) implies f < adj@.len()
            && adj@[f as int]@.contains(g) by {
            let (key, i, j) = choose|key: (u32, u32), i: int, j: int|
                0 <= i < incident_faces(tris, key).len() && 0 <= j < incident_faces(tris, key).len()
                    && i != j && #[trigger] incident_faces(tris, key)[i] == f
                    && #[trigger] incident_faces(tris, key)[j] == g;
            assert(m.contains_key(key));
            let x = choose|x: int| 0 <= x < entries@.len() && entries@[x].0 == key;
            assert(entries@[x].1@ == incident_faces(tris, key));
            lemma_incident_faces_in_range(tris, key);
            assert(adj@[(entries@[x].1@[i]) as int]@.contains(entries@[x].1@[j]));
        }
    }
    adj
}

/// Every listed neighbour of `f` is a face of the mesh adjacent to `f`.
spec fn adj_sound(adj: Seq<Vec<u32>>, tris: Seq<[u32; 3]>) -> bool {
    forall|f: int, x: int|
        0 <= f < adj.len() && 0 <= x < adj[f]@.len() ==> (#[trigger] adj[f]@[x]) < tris.len()
            && faces_adjacent(tris, f as u32, adj[f]@[x])
}

proof fn lemma_adj_push(a0: Seq<Vec<u32>>, a1: Seq<Vec<u32>>, f: u32, g: u32, tris: Seq<[u32; 3]>)
    requires
        f < a0.len(),
        g < tris.len(),
        tris.len() <= u32::MAX,
        a1.len() == a0.len(),
        a1[f as int]@ == a0[f as int]@.push(g),
        forall|x: int| 0 <= x < a0.len() && x != f ==> a1[x] == a0[x],
        adj_sound(a0, tris),
        faces_adjacent(tris, f, g),
    ensures
        adj_sound(a1, tris),
        forall|x: int, h: u32| 0 <= x < a0.len() && #[trigger] a0[x]@.contains(h) ==> a1[x]@.contains(h),
        a1[f as int]@.contains(g),
{
    assert forall|x: int, y: int|
        0 <= x < a1.len() && 0 <= y < a1[x]@.len() implies (#[trigger] a1[x]@[y]) < tris.len()
        && faces_adjacent(tris, x as u32, a1[x]@[y]) by {
        if x == f as int {
            if y < a0[x]@.len() {
                assert(a1[x]@[y] == a0[x]@[y]);
            }
        } else {
            assert(a1[x]@[y] == a0[x]@[y]);
        }
    }
    assert forall|x: int, h: u32| 0 <= x < a0.len() && #[trigger] a0[x]@.contains(h) implies a1[x]@.contains(h) by {
        if x == f as int {
            lemma_seq_contains_after_push(a0[x]@, g, h);
        }
    }
    assert(a1[f as int]@[a0[f as int]@.len() as int] == g);
}

/// `path` is a nonempty sequence of faces, each adjacent to the next.
pub open spec fn is_face_path(tris: Seq<[u32; 3]>, path: Seq<u32>) -> bool {
    &&& path.len() >= 1
    &&& forall|k: int|
        0 <= k < path.len() - 1 ==> faces_adjacent(tris, #[trigger] path[k], path[k + 1])
}

/// Face `g` can be reached from face `f` by crossing shared edges.
pub open spec fn face_reachable(tris: Seq<[u32; 3]>, f: u32, g: u32) -> bool {
    exists|path: Seq<u32>|
        #[trigger] is_face_path(tris, path) && path[0] == f && path[path.len() - 1] == g
}

/// `comps` lists the face-connected components of `tris`: every face lies in
/// exactly one component, once; a component holds every face adjacent to
/// one of its faces; every face of a component is reachable from its first
/// face, which is its smallest; components come in increasing order of
/// their first face.
pub open spec fn is_component_list(comps: Seq<Vec<u32>>, tris: Seq<[u32; 3]>) -> bool {
    &&& forall|ci: int|
        0 <= ci < comps.len() ==> (#[trigger] comps[ci])@.len() > 0 && comps[ci]@.no_duplicates()
    &&& forall|ci: int, p: int|
        0 <= ci < comps.len() && 0 <= p < comps[ci]@.len() ==> (#[trigger] comps[ci]@[p])
            < tris.len()
    &&& forall|f: u32| f < tris.len() ==> #[trigger] in_some_component(comps, f)
    &&& forall|ci1: int, ci2: int, f: u32|
        0 <= ci1 < ci2 < comps.len() ==> !(#[trigger] comps[ci1]@.contains(f) && #[trigger] comps[ci2]@.contains(f))
    &&& forall|ci: int, f: u32, g: u32|
        0 <= ci < comps.len() && #[trigger] comps[ci]@.contains(f) && #[trigger] faces_adjacent(
            tris,
            f,
            g,
        ) ==> comps[ci]@.contains(g)
    &&& forall|ci: int, p: int|
        0 <= ci < comps.len() && 0 <= p < comps[ci]@.len() ==> face_reachable(
            tris,
            comps[ci]@[0],
            #[trigger] comps[ci]@[p],
        )
    &&& forall|ci: int, p: int|
        0 <= ci < comps.len() && 0 <= p < comps[ci]@.len() ==> comps[ci]@[0] <= #[trigger] comps[ci]@[p]
    &&& forall|ci1: int, ci2: int|
        0 <= ci1 < ci2 < comps.len() ==> (#[trigger] comps[ci1])@[0] < (#[trigger] comps[ci2])@[0]
}

/// Face `f` belongs to one of the components of `comps`.
pub open spec fn in_some_component(comps: Seq<Vec<u32>>, f: u32) -> bool {
    exists|ci: int| 0 <= ci < comps.len() && #[trigger] comps[ci]@.contains(f)
}

/// Shared adjacency is symmetric.
pub proof fn lemma_faces_adjacent_symmetric(tris: Seq<[u32; 3]>, f: u32, g: u32)
    requires
        faces_adjacent(tris, f, g),
    ensures
        faces_adjacent(tris, g, f),
{
    let (key, i, j) = choose|key: (u32, u32), i: int, j: int|
        0 <= i < incident_faces(tris, key).len() && 0 <= j < incident_faces(tris, key).len() && i
            != j && #[trigger] incident_faces(tris, key)[i] == f && #[trigger] incident_faces(
            tris,
            key,
        )[j] == g;
    assert(incident_faces(tris, key)[j] == g && incident_faces(tris, key)[i] == f);
}

/// Number of faces below `upto` not yet given a component.
spec fn count_unassigned(comp_of: Seq<int>, upto: nat) -> nat
    decreases upto,
{
    if upto == 0 {
        0
    } else {
        count_unassigned(comp_of, (upto - 1) as nat) + (if comp_of[upto - 1] == -1 {
            1nat
        } else {
            0nat
        })
    }
}

proof fn lemma_count_assign(comp_of: Seq<int>, i: int, v: int, upto: nat)
    requires
        0 <= i < comp_of.len(),
        upto <= comp_of.len(),
        comp_of[i] == -1,
        v != -1,
    ensures
        i < upto ==> count_unassigned(comp_of.update(i, v), upto) + 1 == count_unassigned(
            comp_of,
            upto,
        ),
        i >= upto ==> count_unassigned(comp_of.update(i, v), upto) == count_unassigned(
            comp_of,
            upto,
        ),
    decreases upto,
{
    if upto > 0 {
        lemma_count_assign(comp_of, i, v, (upto - 1) as nat);
    }
}

proof fn lemma_path_extend(tris: Seq<[u32; 3]>, path: Seq<u32>, g: u32)
    requires
        is_face_path(tris, path),
        faces_adjacent(tris, path[path.len() - 1], g),
    ensures
        is_face_path(tris, path.push(g)),
        path.push(g)[0] == path[0],
        path.push(g)[path.len() as int] == g,
{
    let q = path.push(g);
    assert forall|k: int| 0 <= k < q.len() - 1 implies faces_adjacent(tris, #[trigger] q[k], q[k + 1]) by {
        if k < path.len() - 1 {
            assert(q[k] == path[k] && q[k + 1] == path[k + 1]);
        }
    }
}

/// Face connectivity via shared edges (manifold or not).
pub fn face_connected_components(mesh: &MeshIndices) -> (comps: Vec<Vec<FaceId>>)
    requires
        mesh.tris@.len() <= u32::MAX,
    ensures
        is_component_list(comps@, mesh.tris@),
{
    let ghost tris = mesh.tris@;
    let edge_map = EdgeMap::build(mesh);
    let n = mesh.tris.len();
    let adj = face_adjacency(mesh, &edge_map);
    let mut seen: Vec<bool> = Vec::new();
    for f in 0..n
        invariant
            seen@.len() == f,
            forall|x: int| 0 <= x < f ==> !(#[trigger] seen@[x]),
    {
        seen.push(false);
    }
    let mut comps: Vec<Vec<FaceId>> = Vec::new();
    let ghost mut comp_of: Seq<int> = Seq::new(n as nat, |i: int| -1int);
    for start in 0..n
        invariant
            n == tris.len(),
            n <= u32::MAX,
            tris == mesh.tris@,
            adj@.len() == n,
            adj_sound(adj@, tris),
            forall|f: u32, g: u32|
                #[trigger] faces_adjacent(tris, f, g) ==> f < adj@.len() && adj@[f as int]@.contains(g),
            seen@.len() == n,
            comp_of.len() == n,
            forall|f: int| 0 <= f < n ==> (#[trigger] seen@[f] <==> comp_of[f] != -1),
            forall|f: int| 0 <= f < n ==> -1 <= #[trigger] comp_of[f] < comps@.len(),
            forall|f: int| 0 <= f < start ==> #[trigger] comp_of[f] != -1,
            forall|f: int|
                0 <= f < n && #[trigger] comp_of[f] != -1 ==> comps@[comp_of[f]]@.contains(f as u32),
            finished_components(comps@, comp_of, tris),
            forall|ci: int| 0 <= ci < comps@.len() ==> (#[trigger] comps@[ci])@[0] < start,
    {
        if !seen[start] {
            let ghost cur = comps@.len() as int;
            let mut stack: Vec<FaceId> = Vec::new();
            stack.push(start as FaceId);
            let mut comp: Vec<FaceId> = Vec::new();
            let ghost old_seen = seen@;
            seen.set(start, true);
            let ghost mut paths: Map<u32, Seq<u32>> = Map::empty().insert(start as u32, seq![start as u32]);
            proof {
                lemma_count_assign(comp_of, start as int, cur, n as nat);
                let comp_of0 = comp_of;
                comp_of = comp_of.update(start as int, cur);
                assert(is_face_path(tris, seq![start as u32]));
                lemma_start_component(comp_of0, comp_of, cur, paths, start as u32, tris);
                assert forall|f: int| 0 <= f < n implies (#[trigger] seen@[f] <==> comp_of[f] != -1) by {
                    if f != start as int {
                        assert(seen@[f] == old_seen[f]);
                        assert(comp_of[f] == comp_of0[f]);
                    }
                }
                assert forall|f: int| 0 <= f < n implies -1 <= #[trigger] comp_of[f] <= cur by {
                    if f != start as int {
                        assert(comp_of[f] == comp_of0[f]);
                    }
                }
                assert forall|f: int| 0 <= f < start implies #[trigger] comp_of[f] != -1 by {
                    assert(comp_of[f] == comp_of0[f]);
                }
                assert forall|f: int|
                    0 <= f < n && 0 <= #[trigger] comp_of[f] < cur implies comps@[comp_of[f]]@.contains(f as u32) by {
                    assert(comp_of[f] == comp_of0[f]);
                }
                lemma_finished_components_assign(comps@, comp_of0, comp_of, tris, start as int, cur);
                assert forall|x: int| 0 <= x < n && #[trigger] comp_of[x] == cur implies x >= start by {
                    if x != start as int {
                        assert(comp_of[x] == comp_of0[x]);
                    }
                }
            }
            while stack.len() > 0
                invariant
                    n == tris.len(),
                    n <= u32::MAX,
                    start < n,
                    cur == comps@.len(),
                    adj@.len() == n,
                    adj_sound(adj@, tris),
                    forall|f: u32, g: u32|
                        #[trigger] faces_adjacent(tris, f, g) ==> f < adj@.len() && adj@[f as int]@.contains(g),
                    seen@.len() == n,
                    comp_of.len() == n,
                    forall|f: int| 0 <= f < n ==> (#[trigger] seen@[f] <==> comp_of[f] != -1),
                    forall|f: int| 0 <= f < n ==> -1 <= #[trigger] comp_of[f] <= cur,
                    forall|f: int|
                        0 <= f < n && 0 <= #[trigger] comp_of[f] < cur ==> comps@[comp_of[f]]@.contains(f as u32),
                    finished_components(comps@, comp_of, tris),
                    forall|ci: int| 0 <= ci < comps@.len() ==> (#[trigger] comps@[ci])@[0] < start,
                    comp_of[start as int] == cur,
                    forall|f: int| 0 <= f < start ==> #[trigger] comp_of[f] != -1,
                    forall|x: int| 0 <= x < n && #[trigger] comp_of[x] == cur ==> x >= start,
                    current_component(comp@, stack@, comp_of, cur, paths, start as u32, tris, comp@.len() as int),
                    comp@.len() == 0 ==> stack@ == seq![start as u32],
                decreases 2 * count_unassigned(comp_of, n as nat) + stack@.len(),
            {
                let ghost measure0 = 2 * count_unassigned(comp_of, n as nat) + stack@.len();
                let ghost stack0 = stack@;
                let f = stack.pop().unwrap();
                proof {
                    assert(stack0 == stack@.push(f));
                    assert(stack0.contains(f)) by {
                        assert(stack0[stack0.len() - 1] == f);
                    }
                    lemma_pop_to_component(comp@, stack0, comp_of, cur, paths, start as u32, tris);
                }
                comp.push(f);
                let nbrs = &adj[f as usize];
                let mut k: usize = 0;
                while k < nbrs.len()
                    invariant
                        n == tris.len(),
                        n <= u32::MAX,
                        start < n,
                        cur == comps@.len(),
                        f < n,
                        nbrs@ == adj@[f as int]@,
                        adj@.len() == n,
                        adj_sound(adj@, tris),
                        seen@.len() == n,
                        comp_of.len() == n,
                        comp_of[f as int] == cur,
                        k <= nbrs@.len(),
                        forall|x: int| 0 <= x < n ==> (#[trigger] seen@[x] <==> comp_of[x] != -1),
                        forall|x: int| 0 <= x < n ==> -1 <= #[trigger] comp_of[x] <= cur,
                        forall|x: int|
                            0 <= x < n && 0 <= #[trigger] comp_of[x] < cur ==> comps@[comp_of[x]]@.contains(x as u32),
                        finished_components(comps@, comp_of, tris),
                        comp_of[start as int] == cur,
                        forall|x: int| 0 <= x < start ==> #[trigger] comp_of[x] != -1,
                        forall|x: int| 0 <= x < n && #[trigger] comp_of[x] == cur ==> x >= start,
                        comp@.len() >= 1,
                        comp@[comp@.len() - 1] == f,
                        current_component(comp@, stack@, comp_of, cur, paths, start as u32, tris, comp@.len() - 1),
                        forall|x: int| 0 <= x < k ==> comp_of[(#[trigger] nbrs@[x]) as int] == cur,
                        2 * count_unassigned(comp_of, n as nat) + stack@.len() < measure0,
                    decreases nbrs@.len() - k,
                {
                    let nface = nbrs[k];
                    proof {
                        assert(nbrs@[k as int] < n);
                        assert(faces_adjacent(tris, f, nface));
                    }
                    if !seen[nface as usize] {
                        let ghost comp_of0 = comp_of;
                        let ghost stack1 = stack@;
                        let ghost seen0 = seen@;
                        seen.set(nface as usize, true);
                        stack.push(nface);
                        proof {
                            lemma_count_assign(comp_of, nface as int, cur, n as nat);
                            comp_of = comp_of.update(nface as int, cur);
                            let pf = paths[f];
                            lemma_path_extend(tris, pf, nface);
                            paths = paths.insert(nface, pf.push(nface));
                            lemma_push_to_component(comp@, stack1, comp_of0, comp_of, cur, paths, start as u32, tris, nface, f);
                            assert forall|x: int| 0 <= x < n implies (#[trigger] seen@[x] <==> comp_of[x] != -1) by {
                                if x != nface as int {
                                    assert(seen@[x] == seen0[x]);
                                    assert(comp_of[x] == comp_of0[x]);
                                }
                            }
                            assert forall|x: int| 0 <= x < n implies -1 <= #[trigger] comp_of[x] <= cur by {
                                if x != nface as int {
                                    assert(comp_of[x] == comp_of0[x]);
                                }
                            }
                            assert forall|x: int| 0 <= x < start implies #[trigger] comp_of[x] != -1 by {
                                if x != nface as int {
                                    assert(comp_of[x] == comp_of0[x]);
                                }
                            }
                            assert forall|x: int| 0 <= x < n && #[trigger] comp_of[x] == cur implies x >= start by {
                                if x != nface as int {
                                    assert(comp_of[x] == comp_of0[x]);
                                } else {
                                    assert(!seen0[x]);
                                    if x < start {
                                        assert(comp_of0[x] != -1);
                                    }
                                }
                            }
                            assert forall|x: int|
                                0 <= x < n && 0 <= #[trigger] comp_of[x] < cur implies comps@[comp_of[x]]@.contains(x as u32) by {
                                assert(comp_of[x] == comp_of0[x]);
                            }
                            lemma_finished_components_assign(comps@, comp_of0, comp_of, tris, nface as int, cur);
                            assert forall|x: int| 0 <= x < k + 1 implies comp_of[(#[trigger] nbrs@[x]) as int] == cur by {
                                if x < k {
                                    assert(comp_of0[nbrs@[x] as int] == cur);
                                }
                            }
                        }
                    } else {
                        proof {
                            lemma_faces_adjacent_symmetric(tris, f, nface);
                            if comp_of[nface as int] < cur {
                                assert(comp_of[f as int] == comp_of[nface as int]);
                            }
                        }
                    }
                    k = k + 1;
                }
                proof {
                    assert forall|p: int, g: u32|
                        0 <= p < comp@.len() && #[trigger] faces_adjacent(tris, comp@[p], g) implies g
                        < tris.len() && comp_of[g as int] == cur by {
                        if p == comp@.len() - 1 {
                            assert(adj@[f as int]@.contains(g));
                            let x = choose|x: int| 0 <= x < nbrs@.len() && nbrs@[x] == g;
                            assert(comp_of[nbrs@[x] as int] == cur);
                        }
                    }
                }
            }
            let ghost old_comps = comps@;
            comps.push(comp);
            proof {
                lemma_close_component(old_comps, comps@, comp_of, paths, start as u32, tris);
                assert forall|f: int| 0 <= f < start + 1 implies #[trigger] comp_of[f] != -1 by {
                    if f == start as int {
                        assert(comp_of[start as int] == cur);
                    }
                }
            }
        } else {
            proof {
                assert(seen@[start as int]);
                assert forall|f: int| 0 <= f < start + 1 implies #[trigger] comp_of[f] != -1 by {
                    if f == start as int {
                        assert(seen@[f]);
                    }
                }
            }
        }
    }
    proof {
        lemma_components_complete(comps@, comp_of, tris);
    }
    comps
}

/// The components listed so far are complete, closed and connected, and
/// `comp_of` names, for each assigned face, the component holding it.
spec fn finished_components(comps: Seq<Vec<u32>>, comp_of: Seq<int>, tris: Seq<[u32; 3]>) -> bool {
    &&& forall|ci: int|
        0 <= ci < comps.len() ==> (#[trigger] comps[ci])@.len() > 0 && comps[ci]@.no_duplicates()
    &&& forall|ci: int, p: int|
        0 <= ci < comps.len() && 0 <= p < comps[ci]@.len() ==> (#[trigger] comps[ci]@[p])
            < tris.len() && comp_of[comps[ci]@[p] as int] == ci
    &&& forall|f: u32, g: u32|
        f < tris.len() && 0 <= comp_of[f as int] < comps.len() && #[trigger] faces_adjacent(
            tris,
            f,
            g,
        ) ==> g < tris.len() && comp_of[g as int] == comp_of[f as int]
    &&& forall|ci: int, p: int|
        0 <= ci < comps.len() && 0 <= p < comps[ci]@.len() ==> face_reachable(
            tris,
            comps[ci]@[0],
            #[trigger] comps[ci]@[p],
        )
    &&& forall|ci: int, p: int|
        0 <= ci < comps.len() && 0 <= p < comps[ci]@.len() ==> comps[ci]@[0] <= #[trigger] comps[ci]@[p]
    &&& forall|ci1: int, ci2: int|
        0 <= ci1 < ci2 < comps.len() ==> (#[trigger] comps[ci1])@[0] < (#[trigger] comps[ci2])@[0]
}

/// The component under construction: its faces are those already popped
/// (`comp`) and those waiting on the stack; the first `closed` popped faces
/// have all their neighbours assigned to it; every face of it has a
/// recorded path from `start`.
spec fn current_component(
    comp: Seq<u32>,
    stack: Seq<u32>,
    comp_of: Seq<int>,
    cur: int,
    paths: Map<u32, Seq<u32>>,
    start: u32,
    tris: Seq<[u32; 3]>,
    closed: int,
) -> bool {
    &&& comp.no_duplicates()
    &&& stack.no_duplicates()
    &&& forall|x: u32| !(comp.contains(x) && stack.contains(x))
    &&& forall|x: int|
        0 <= x < tris.len() ==> (#[trigger] comp_of[x] == cur <==> (comp.contains(x as u32)
            || stack.contains(x as u32)))
    &&& forall|p: int| 0 <= p < comp.len() ==> (#[trigger] comp[p]) < tris.len()
    &&& forall|p: int| 0 <= p < stack.len() ==> (#[trigger] stack[p]) < tris.len()
    &&& forall|p: int, g: u32|
        0 <= p < closed && #[trigger] faces_adjacent(tris, comp[p], g) ==> g < tris.len()
            && comp_of[g as int] == cur
    &&& forall|x: u32|
        x < tris.len() && #[trigger] comp_of[x as int] == cur ==> paths.contains_key(x)
            && is_face_path(tris, paths[x]) && paths[x][0] == start && paths[x][paths[x].len() - 1]
            == x
    &&& comp.len() > 0 ==> comp[0] == start
}

proof fn lemma_pop_to_component(
    comp: Seq<u32>,
    stack0: Seq<u32>,
    comp_of: Seq<int>,
    cur: int,
    paths: Map<u32, Seq<u32>>,
    start: u32,
    tris: Seq<[u32; 3]>,
)
    requires
        tris.len() <= u32::MAX,
        stack0.len() > 0,
        current_component(comp, stack0, comp_of, cur, paths, start, tris, comp.len() as int),
        comp.len() == 0 ==> stack0 == seq![start],
    ensures
        ({
            let f = stack0[stack0.len() - 1];
            &&& current_component(comp.push(f), stack0.drop_last(), comp_of, cur, paths, start, tris, comp.len() as int)
            &&& f < tris.len()
            &&& comp_of[f as int] == cur
        }),
{
    let f = stack0[stack0.len() - 1];
    let c2 = comp.push(f);
    let s2 = stack0.drop_last();
    assert(stack0.contains(f));
    assert(!comp.contains(f));
    assert forall|a: int, b: int| 0 <= a < b < c2.len() implies c2[a] != c2[b] by {
        if b == comp.len() {
            assert(comp.contains(comp[a]));
        } else {
            assert(comp[a] != comp[b]);
        }
    }
    assert forall|x: u32| !(c2.contains(x) && s2.contains(x)) by {
        lemma_seq_contains_after_push(comp, f, x);
        if s2.contains(x) {
            let i = choose|i: int| 0 <= i < s2.len() && s2[i] == x;
            assert(stack0[i] == x);
            assert(stack0.contains(x));
            if x == f {
                assert(stack0[i] == stack0[stack0.len() - 1]);
            }
        }
    }
    assert forall|x: int|
        0 <= x < tris.len() implies (#[trigger] comp_of[x] == cur <==> (c2.contains(x as u32)
        || s2.contains(x as u32))) by {
        lemma_seq_contains_after_push(comp, f, x as u32);
        if stack0.contains(x as u32) && x as u32 != f {
            let i = choose|i: int| 0 <= i < stack0.len() && stack0[i] == x as u32;
            assert(i != stack0.len() - 1);
            assert(s2[i] == x as u32);
        }
        if s2.contains(x as u32) {
            let i = choose|i: int| 0 <= i < s2.len() && s2[i] == x as u32;
            assert(stack0[i] == x as u32);
        }
    }
    assert forall|p: int| 0 <= p < c2.len() implies (#[trigger] c2[p]) < tris.len() by {
        if p < comp.len() {
            assert(c2[p] == comp[p]);
        }
    }
    assert forall|p: int, g: u32|
        0 <= p < comp.len() && #[trigger] faces_adjacent(tris, c2[p], g) implies g < tris.len()
        && comp_of[g as int] == cur by {
        assert(c2[p] == comp[p]);
    }
    if comp.len() == 0 {
        assert(f == start);
    }
}

proof fn lemma_push_to_component(
    comp: Seq<u32>,
    stack1: Seq<u32>,
    comp_of0: Seq<int>,
    comp_of: Seq<int>,
    cur: int,
    paths: Map<u32, Seq<u32>>,
    start: u32,
    tris: Seq<[u32; 3]>,
    nface: u32,
    f: u32,
)
    requires
        tris.len() <= u32::MAX,
        nface < tris.len(),
        comp_of0.len() == tris.len(),
        comp_of0[nface as int] == -1,
        cur >= 0,
        comp_of == comp_of0.update(nface as int, cur),
        comp.len() >= 1,
        current_component(comp, stack1, comp_of0, cur, paths.remove(nface), start, tris, comp.len() - 1),
        paths.contains_key(nface),
        is_face_path(tris, paths[nface]),
        paths[nface][0] == start,
        paths[nface][paths[nface].len() - 1] == nface,
    ensures
        current_component(comp, stack1.push(nface), comp_of, cur, paths, start, tris, comp.len() - 1),
{
    let s2 = stack1.push(nface);
    assert(!comp.contains(nface) && !stack1.contains(nface)) by {
        assert(comp_of0[nface as int] != cur);
    }
    assert forall|a: int, b: int| 0 <= a < b < s2.len() implies s2[a] != s2[b] by {
        if b == stack1.len() {
            assert(stack1.contains(stack1[a]));
        } else {
            assert(stack1[a] != stack1[b]);
        }
    }
    assert forall|x: u32| !(comp.contains(x) && s2.contains(x)) by {
        lemma_seq_contains_after_push(stack1, nface, x);
    }
    assert forall|x: int|
        0 <= x < tris.len() implies (#[trigger] comp_of[x] == cur <==> (comp.contains(x as u32)
        || s2.contains(x as u32))) by {
        lemma_seq_contains_after_push(stack1, nface, x as u32);
        if x != nface as int {
            assert(comp_of[x] == comp_of0[x]);
        }
    }
    assert forall|p: int| 0 <= p < s2.len() implies (#[trigger] s2[p]) < tris.len() by {
        if p < stack1.len() {
            assert(s2[p] == stack1[p]);
        }
    }
    assert forall|p: int, g: u32|
        0 <= p < comp.len() - 1 && #[trigger] faces_adjacent(tris, comp[p], g) implies g < tris.len()
        && comp_of[g as int] == cur by {
        assert(comp_of0[g as int] == cur);
    }
    assert forall|x: u32|
        x < tris.len() && #[trigger] comp_of[x as int] == cur implies paths.contains_key(x)
        && is_face_path(tris, paths[x]) && paths[x][0] == start && paths[x][paths[x].len() - 1]
        == x by {
        if x != nface {
            assert(comp_of0[x as int] == cur);
            assert(paths.remove(nface).contains_key(x));
        }
    }
}

proof fn lemma_start_component(
    comp_of0: Seq<int>,
    comp_of: Seq<int>,
    cur: int,
    paths: Map<u32, Seq<u32>>,
    start: u32,
    tris: Seq<[u32; 3]>,
)
    requires
        tris.len() <= u32::MAX,
        start < tris.len(),
        comp_of0.len() == tris.len(),
        forall|f: int| 0 <= f < tris.len() ==> -1 <= #[trigger] comp_of0[f] < cur,
        comp_of == comp_of0.update(start as int, cur),
        paths == Map::<u32, Seq<u32>>::empty().insert(start, seq![start]),
        is_face_path(tris, seq![start]),
    ensures
        current_component(Seq::empty(), seq![start], comp_of, cur, paths, start, tris, 0),
{
    let st = seq![start];
    assert forall|x: int|
        0 <= x < tris.len() implies (#[trigger] comp_of[x] == cur <==> (Seq::<u32>::empty().contains(
        x as u32) || st.contains(x as u32))) by {
        if x != start as int {
            assert(comp_of[x] == comp_of0[x]);
            if st.contains(x as u32) {
                let i = choose|i: int| 0 <= i < st.len() && st[i] == x as u32;
                assert(st[i] == start);
            }
        } else {
            assert(st[0] == start);
        }
    }
    assert forall|x: u32|
        x < tris.len() && #[trigger] comp_of[x as int] == cur implies paths.contains_key(x)
        && is_face_path(tris, paths[x]) && paths[x][0] == start && paths[x][paths[x].len() - 1]
        == x by {
        if x != start {
            assert(comp_of[x as int] == comp_of0[x as int]);
        }
    }
}

proof fn lemma_finished_components_assign(
    comps: Seq<Vec<u32>>,
    comp_of0: Seq<int>,
    comp_of: Seq<int>,
    tris: Seq<[u32; 3]>,
    i: int,
    cur: int,
)
    requires
        comp_of0.len() == tris.len(),
        cur == comps.len(),
        0 <= i < comp_of0.len(),
        comp_of0[i] == -1,
        comp_of == comp_of0.update(i, cur),
        finished_components(comps, comp_of0, tris),
    ensures
        finished_components(comps, comp_of, tris),
{
    assert forall|ci: int, p: int|
        0 <= ci < comps.len() && 0 <= p < comps[ci]@.len() implies (#[trigger] comps[ci]@[p])
        < tris.len() && comp_of[comps[ci]@[p] as int] == ci by {
        assert(comp_of0[comps[ci]@[p] as int] == ci);
    }
    assert forall|f: u32, g: u32|
        f < tris.len() && 0 <= comp_of[f as int] < comps.len() && #[trigger] faces_adjacent(
            tris,
            f,
            g,
        ) implies g < tris.len() && comp_of[g as int] == comp_of[f as int] by {
        assert(comp_of[f as int] == comp_of0[f as int]);
        assert(comp_of0[g as int] == comp_of0[f as int]);
    }
}

proof fn lemma_close_component(
    old_comps: Seq<Vec<u32>>,
    comps: Seq<Vec<u32>>,
    comp_of: Seq<int>,
    paths: Map<u32, Seq<u32>>,
    start: u32,
    tris: Seq<[u32; 3]>,
)
    requires
        tris.len() <= u32::MAX,
        comps.len() == old_comps.len() + 1,
        forall|ci: int| 0 <= ci < old_comps.len() ==> comps[ci] == old_comps[ci],
        comp_of.len() == tris.len(),
        finished_components(old_comps, comp_of, tris),
        forall|ci: int| 0 <= ci < old_comps.len() ==> (#[trigger] old_comps[ci])@[0] < start,
        forall|x: int| 0 <= x < tris.len() && #[trigger] comp_of[x] == old_comps.len() ==> x >= start,
        ({
            let comp = comps[old_comps.len() as int]@;
            &&& current_component(comp, Seq::empty(), comp_of, old_comps.len() as int, paths, start, tris, comp.len() as int)
            &&& comp.len() > 0
        }),
    ensures
        finished_components(comps, comp_of, tris),
{
    let cur = old_comps.len() as int;
    let comp = comps[cur]@;
    assert forall|ci: int| 0 <= ci < comps.len() implies (#[trigger] comps[ci])@.len() > 0
        && comps[ci]@.no_duplicates() by {
        if ci < cur {
            assert(comps[ci] == old_comps[ci]);
        }
    }
    assert forall|ci: int, p: int|
        0 <= ci < comps.len() && 0 <= p < comps[ci]@.len() implies (#[trigger] comps[ci]@[p])
        < tris.len() && comp_of[comps[ci]@[p] as int] == ci by {
        if ci < cur {
            assert(comps[ci] == old_comps[ci]);
            assert(old_comps[ci]@[p] == comps[ci]@[p]);
        } else {
            assert(comp.contains(comp[p]));
            assert(!Seq::<u32>::empty().contains(comp[p]));
        }
    }
    assert forall|f: u32, g: u32|
        f < tris.len() && 0 <= comp_of[f as int] < comps.len() && #[trigger] faces_adjacent(
            tris,
            f,
            g,
        ) implies g < tris.len() && comp_of[g as int] == comp_of[f as int] by {
        if comp_of[f as int] == cur {
            assert(comp.contains(f) || Seq::<u32>::empty().contains(f));
            let p = choose|p: int| 0 <= p < comp.len() && comp[p] == f;
            assert(faces_adjacent(tris, comp[p], g));
        }
    }
    assert forall|ci: int, p: int|
        0 <= ci < comps.len() && 0 <= p < comps[ci]@.len() implies face_reachable(
        tris,
        comps[ci]@[0],
        #[trigger] comps[ci]@[p],
    ) by {
        if ci < cur {
            assert(comps[ci] == old_comps[ci]);
            assert(old_comps[ci]@[p] == comps[ci]@[p]);
            assert(face_reachable(tris, old_comps[ci]@[0], old_comps[ci]@[p]));
        } else {
            let x = comp[p];
            assert(comp.contains(x));
            assert(comp_of[x as int] == cur);
            assert(is_face_path(tris, paths[x]));
        }
    }
    assert forall|ci: int, p: int|
        0 <= ci < comps.len() && 0 <= p < comps[ci]@.len() implies comps[ci]@[0] <= #[trigger] comps[ci]@[p] by {
        if ci < cur {
            assert(comps[ci] == old_comps[ci]);
            assert(old_comps[ci]@[p] == comps[ci]@[p]);
        } else {
            let x = comp[p];
            assert(comp.contains(x));
            assert(comp_of[x as int] == cur);
        }
    }
    assert forall|ci1: int, ci2: int|
        0 <= ci1 < ci2 < comps.len() implies (#[trigger] comps[ci1])@[0] < (#[trigger] comps[ci2])@[0] by {
        assert(comps[ci1] == old_comps[ci1]);
        if ci2 < cur {
            assert(comps[ci2] == old_comps[ci2]);
        }
    }
}

proof fn lemma_components_complete(comps: Seq<Vec<u32>>, comp_of: Seq<int>, tris: Seq<[u32; 3]>)
    requires
        tris.len() <= u32::MAX,
        comp_of.len() == tris.len(),
        finished_components(comps, comp_of, tris),
        forall|f: int| 0 <= f < tris.len() ==> #[trigger] comp_of[f] != -1,
        forall|f: int| 0 <= f < tris.len() ==> -1 <= #[trigger] comp_of[f] < comps.len(),
        forall|f: int|
            0 <= f < tris.len() && #[trigger] comp_of[f] != -1 ==> comps[comp_of[f]]@.contains(
                f as u32,
            ),
    ensures
        is_component_list(comps, tris),
{
    assert forall|f: u32| f < tris.len() implies #[trigger] in_some_component(comps, f) by {
        assert(comp_of[f as int] != -1);
        assert(comps[comp_of[f as int]]@.contains(f));
    }
    assert forall|ci1: int, ci2: int, f: u32|
        0 <= ci1 < ci2 < comps.len() implies !(#[trigger] comps[ci1]@.contains(f)
        && #[trigger] comps[ci2]@.contains(f)) by {
        if comps[ci1]@.contains(f) && comps[ci2]@.contains(f) {
            let p1 = choose|p: int| 0 <= p < comps[ci1]@.len() && comps[ci1]@[p] == f;
            let p2 = choose|p: int| 0 <= p < comps[ci2]@.len() && comps[ci2]@[p] == f;
            assert(comp_of[comps[ci1]@[p1] as int] == ci1);
            assert(comp_of[comps[ci2]@[p2] as int] == ci2);
        }
    }
    assert forall|ci: int, f: u32, g: u32|
        0 <= ci < comps.len() && #[trigger] comps[ci]@.contains(f) && #[trigger] faces_adjacent(
            tris,
            f,
            g,
        ) implies comps[ci]@.contains(g) by {
        let p = choose|p: int| 0 <= p < comps[ci]@.len() && comps[ci]@[p] == f;
        assert(comp_of[comps[ci]@[p] as int] == ci);
        assert(comp_of[g as int] == ci);
        assert(comp_of[g as int] != -1);
    }
}

/// Every index of every triangle is below `bound`.
pub open spec fn indices_below(tris: Seq<[u32; 3]>, bound: int) -> bool {
    forall|i: int, c: int| 0 <= i < tris.len() && 0 <= c < 3 ==> (#[trigger] tris[i][c]) < bound
}

/// An edge met by some side of the triangles joins two of their vertices.
pub proof fn lemma_edge_endpoints_below(tris: Seq<[u32; 3]>, s: nat, key: (u32, u32), bound: int)
    requires
        s <= 3 * tris.len(),
        indices_below(tris, bound),
        faces_on_sides(tris, s, key).len() > 0,
    ensures
        key.0 < bound,
        key.1 < bound,
    decreases s,
{
    let side = side_at(tris, s - 1);
    if spec_edge_key(side.0, side.1) == key {
        let f = (s - 1) / 3;
        let k = (s - 1) % 3;
        assert(0 <= f < tris.len());
        assert(tris[f][0] < bound && tris[f][1] < bound && tris[f][2] < bound);
    } else {
        lemma_edge_endpoints_below(tris, (s - 1) as nat, key, bound);
    }
}

} // verus!

verus! {

/// The triangles of the unit cube, two per face, each wound outward.
pub open spec fn unit_cube_tris() -> Seq<[u32; 3]> {
    seq![
        [0u32, 2u32, 1u32], [0u32, 3u32, 2u32],
        [4u32, 5u32, 6u32], [4u32, 6u32, 7u32],
        [0u32, 1u32, 5u32], [0u32, 5u32, 4u32],
        [1u32, 2u32, 6u32], [1u32, 6u32, 5u32],
        [2u32, 3u32, 7u32], [2u32, 7u32, 6u32],
        [3u32, 0u32, 4u32], [3u32, 4u32, 7u32],
    ]
}

/// The unit cube's triangles without the two of its top face.
pub open spec fn cube_missing_top_tris() -> Seq<[u32; 3]> {
    unit_cube_tris().subrange(0, 2) + unit_cube_tris().subrange(4, 12)
}

impl MeshIndices {
    /// The index structure of the unit cube: 8 corners, 12 outward-wound
    /// triangles (bottom, top, front, right, back, left).
    pub fn unit_cube() -> (r: MeshIndices)
        ensures
            r.vertex_count == 8,
            r.tris@ == unit_cube_tris(),
    {
        let mut tris: Vec<[u32; 3]> = Vec::new();
        tris.push([0, 2, 1]);
        tris.push([0, 3, 2]);
        tris.push([4, 5, 6]);
        tris.push([4, 6, 7]);
        tris.push([0, 1, 5]);
        tris.push([0, 5, 4]);
        tris.push([1, 2, 6]);
        tris.push([1, 6, 5]);
        tris.push([2, 3, 7]);
        tris.push([2, 7, 6]);
        tris.push([3, 0, 4]);
        tris.push([3, 4, 7]);
        proof {
            assert(tris@ =~= unit_cube_tris());
        }
        MeshIndices { vertex_count: 8, tris }
    }

    /// Boundary loops as ordered vertex rings (see [`extract_boundary_loops`]).
    pub fn boundary_loops(&self) -> (loops: Vec<Vec<u32>>)
        requires
            self.tris@.len() <= u32::MAX,
        ensures
            forall|li: int| 0 <= li < loops@.len() ==> #[trigger] loops@[li]@.len() >= 2,
            forall|li: int, k: int|
                0 <= li < loops@.len() && 0 <= k < loops@[li]@.len() - 1 ==> is_boundary_side(
                    self.tris@,
                    #[trigger] loop_step(loops@, li, k).0,
                    loop_step(loops@, li, k).1,
                ),
            exists|starts: Seq<(u32, u32)>|
                enumerates(starts, half_map(self.tris@)) && loops@.map_values(|v: Vec<u32>| v@)
                    == walk_all(half_map(self.tris@), self.vertex_count as nat, starts).0,
    {
        extract_boundary_loops(self)
    }

    /// Face-connected components (see [`face_connected_components`]).
    pub fn connected_components(&self) -> (comps: Vec<Vec<FaceId>>)
        requires
            self.tris@.len() <= u32::MAX,
        ensures
            is_component_list(comps@, self.tris@),
    {
        face_connected_components(self)
    }
}

/// The unit cube with its top face removed: an open box whose rim is a
/// single boundary loop of four edges.
pub fn cube_missing_top() -> (r: MeshIndices)
    ensures
        r.vertex_count == 8,
        r.tris@ == cube_missing_top_tris(),
{
    let cube = MeshIndices::unit_cube();
    let ghost keep = |t: [u32; 3]| t != [4u32, 5u32, 6u32] && t != [4u32, 6u32, 7u32];
    let mut tris: Vec<[u32; 3]> = Vec::new();
    let mut i: usize = 0;
    while i < cube.tris.len()
        invariant
            cube.tris@ == unit_cube_tris(),
            i <= 12,
            keep == (|t: [u32; 3]| t != [4u32, 5u32, 6u32] && t != [4u32, 6u32, 7u32]),
            tris@ == unit_cube_tris().subrange(0, i as int).filter(keep),
        decreases 12 - i,
    {
        let t = cube.tris[i];
        proof {
            assert(unit_cube_tris().subrange(0, i + 1) =~= unit_cube_tris().subrange(0, i as int).push(t));
            unit_cube_tris().subrange(0, i as int).lemma_filter_push(t, keep);
        }
        let top = (t[0] == 4 && t[1] == 5 && t[2] == 6) || (t[0] == 4 && t[1] == 6 && t[2] == 7);
        proof {
            if t[0] == 4 && t[1] == 5 && t[2] == 6 {
                assert(t@ =~= [4u32, 5u32, 6u32]@);
            }
            if t[0] == 4 && t[1] == 6 && t[2] == 7 {
                assert(t@ =~= [4u32, 6u32, 7u32]@);
            }
        }
        if !top {
            tris.push(t);
        }
        i = i + 1;
    }
    proof {
        reveal_with_fuel(Seq::filter, 13);
        assert(unit_cube_tris().subrange(0, 12) =~= unit_cube_tris());
        assert(tris@ =~= cube_missing_top_tris());
    }
    MeshIndices { vertex_count: 8, tris }
}

} // verus!

verus! {

/// The edge key does not depend on the direction of the edge, and names the
/// smaller vertex first.
pub proof fn lemma_edge_key_symmetric(a: u32, b: u32)
    ensures
        spec_edge_key(a, b) == spec_edge_key(b, a),
        spec_edge_key(a, b).0 <= spec_edge_key(a, b).1,
{
}

proof fn lemma_path_stays_in_component(comps: Seq<Vec<u32>>, tris: Seq<[u32; 3]>, ci: int, path: Seq<u32>, k: int)
    requires
        is_component_list(comps, tris),
        0 <= ci < comps.len(),
        is_face_path(tris, path),
        comps[ci]@.contains(path[0]),
        0 <= k < path.len(),
    ensures
        comps[ci]@.contains(path[k]),
    decreases k,
{
    if k > 0 {
        lemma_path_stays_in_component(comps, tris, ci, path, k - 1);
        assert(faces_adjacent(tris, path[k - 1], path[k]));
    }
}

proof fn lemma_reverse_path(tris: Seq<[u32; 3]>, path: Seq<u32>)
    requires
        is_face_path(tris, path),
    ensures
        is_face_path(tris, path.reverse()),
        path.reverse()[0] == path[path.len() - 1],
        path.reverse()[path.len() - 1] == path[0],
{
    let r = path.reverse();
    assert forall|k: int| 0 <= k < r.len() - 1 implies faces_adjacent(tris, #[trigger] r[k], r[k + 1]) by {
        let j = path.len() - 2 - k;
        assert(faces_adjacent(tris, path[j], path[j + 1]));
        lemma_faces_adjacent_symmetric(tris, path[j], path[j + 1]);
    }
}

proof fn lemma_join_paths(tris: Seq<[u32; 3]>, p: Seq<u32>, q: Seq<u32>)
    requires
        is_face_path(tris, p),
        is_face_path(tris, q),
        p[p.len() - 1] == q[0],
    ensures
        is_face_path(tris, p + q.drop_first()),
        (p + q.drop_first())[0] == p[0],
        (p + q.drop_first())[(p + q.drop_first()).len() - 1] == q[q.len() - 1],
{
    let j = p + q.drop_first();
    assert forall|k: int| 0 <= k < j.len() - 1 implies faces_adjacent(tris, #[trigger] j[k], j[k + 1]) by {
        if k < p.len() - 1 {
            assert(j[k] == p[k] && j[k + 1] == p[k + 1]);
        } else {
            let m = k - (p.len() - 1);
            assert(j[k] == q[m] && j[k + 1] == q[m + 1]);
            assert(faces_adjacent(tris, q[m], q[m + 1]));
        }
    }
}

/// Components are exactly the classes of faces that reach one another: a
/// face lies in the component of face `f` if and only if it can be reached
/// from `f` across shared edges.
pub proof fn lemma_component_is_reachability_class(
    comps: Seq<Vec<u32>>,
    tris: Seq<[u32; 3]>,
    ci: int,
    f: u32,
    g: u32,
)
    requires
        is_component_list(comps, tris),
        0 <= ci < comps.len(),
        comps[ci]@.contains(f),
    ensures
        comps[ci]@.contains(g) <==> face_reachable(tris, f, g),
{
    if face_reachable(tris, f, g) {
        let path = choose|path: Seq<u32>|
            #[trigger] is_face_path(tris, path) && path[0] == f && path[path.len() - 1] == g;
        lemma_path_stays_in_component(comps, tris, ci, path, path.len() - 1);
    }
    if comps[ci]@.contains(g) {
        let pf = choose|p: int| 0 <= p < comps[ci]@.len() && comps[ci]@[p] == f;
        let pg = choose|p: int| 0 <= p < comps[ci]@.len() && comps[ci]@[p] == g;
        assert(face_reachable(tris, comps[ci]@[0], comps[ci]@[pf]));
        assert(face_reachable(tris, comps[ci]@[0], comps[ci]@[pg]));
        let first = comps[ci]@[0];
        let to_f = choose|path: Seq<u32>|
            #[trigger] is_face_path(tris, path) && path[0] == first && path[path.len() - 1] == f;
        let to_g = choose|path: Seq<u32>|
            #[trigger] is_face_path(tris, path) && path[0] == first && path[path.len() - 1] == g;
        lemma_reverse_path(tris, to_f);
        let back = to_f.reverse();
        lemma_join_paths(tris, back, to_g);
        let joined = back + to_g.drop_first();
        assert(is_face_path(tris, joined) && joined[0] == f && joined[joined.len() - 1] == g);
    }
}

} // verus!

verus! {

proof fn lemma_half_map_empty(tris: Seq<[u32; 3]>, s: nat)
    requires
        forall|key: (u32, u32)| #[trigger] incident_faces(tris, key).len() != 1,
    ensures
        half_map_upto(tris, s) == Map::<u32, Seq<u32>>::empty(),
    decreases s,
{
    if s > 0 {
        lemma_half_map_empty(tris, (s - 1) as nat);
        let side = side_at(tris, s - 1);
        assert(incident_faces(tris, spec_edge_key(side.0, side.1)).len() != 1);
    }
}

/// A mesh without boundary edges has no boundary loops, whatever order the
/// half-edge table is walked in.
pub proof fn lemma_closed_mesh_has_no_boundary_loops(tris: Seq<[u32; 3]>, vc: nat, starts: Seq<(u32, u32)>)
    requires
        forall|key: (u32, u32)| #[trigger] incident_faces(tris, key).len() != 1,
        enumerates(starts, half_map(tris)),
    ensures
        walk_all(half_map(tris), vc, starts).0.len() == 0,
{
    lemma_half_map_empty(tris, 3 * tris.len());
    let keys = choose|keys: Seq<u32>|
        keys.no_duplicates() && (forall|a: u32| keys.contains(a) <==> #[trigger] half_map(tris).contains_key(a))
            && starts == pairs_of(half_map(tris), keys);
    if keys.len() > 0 {
        assert(keys.contains(keys[0]));
        assert(half_map(tris).contains_key(keys[0]));
    }
    assert(starts.len() == 0);
}

} // verus!
