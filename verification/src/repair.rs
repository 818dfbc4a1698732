//! Index-level steps of the mesh repair pipeline.
use crate::tables::{edge_faces_contents, face_keys_contents, FaceKeys};
use crate::topology::{
    faces_on_sides, incident_faces, indices_below, is_edge_map_of,
    lemma_incident_faces_in_range, nonmanifold_edge_set, side_at, spec_edge_key, tri_side, EdgeMap,
    MeshIndices,
};
use crate::text::{decimal, push_decimal};
use vstd::prelude::*;
use vstd::string::*;

verus! {

/// Triangle `t` with its winding reversed (second and third index swapped).
pub open spec fn flipped(t: [u32; 3]) -> [u32; 3] {
    [t[0], t[2], t[1]]
}

/// Edge `key` has exactly two incident faces and both walk it in the same
/// direction, so their windings disagree.
pub open spec fn misoriented_edge(tris: Seq<[u32; 3]>, key: (u32, u32)) -> bool {
    &&& incident_faces(tris, key).len() == 2
    &&& walks_edge_forward(tris[incident_faces(tris, key)[0] as int], key.0, key.1)
        == walks_edge_forward(tris[incident_faces(tris, key)[1] as int], key.0, key.1)
}

/// Triangle `t`, with its winding reversed when `flip` holds.
pub open spec fn oriented(t: [u32; 3], flip: bool) -> [u32; 3] {
    if flip {
        flipped(t)
    } else {
        t
    }
}

/// Whether triangle `t` walks edge `{a, b}` as `a → b`: the first side of
/// `t` (in the order `t[0]→t[1]`, `t[1]→t[2]`, `t[2]→t[0]`) that joins `a`
/// and `b` decides; a triangle without such a side counts as `true`.
pub open spec fn walks_edge_forward(t: [u32; 3], a: u32, b: u32) -> bool {
    if t[0] == a && t[1] == b {
        true
    } else if t[0] == b && t[1] == a {
        false
    } else if t[1] == a && t[2] == b {
        true
    } else if t[1] == b && t[2] == a {
        false
    } else if t[2] == a && t[0] == b {
        true
    } else if t[2] == b && t[0] == a {
        false
    } else {
        true
    }
}

/// Whether `tri` walks the edge `a → b` (see [`walks_edge_forward`]).
pub fn same_edge_direction(tri: &[u32; 3], a: u32, b: u32) -> (r: bool)
    ensures
        r == walks_edge_forward(*tri, a, b),
{
    let sides = [(0usize, 1usize), (1, 2), (2, 0)];
    let mut s: usize = 0;
    while s < 3
        invariant
            s <= 3,
            sides@ == seq![(0usize, 1usize), (1usize, 2usize), (2usize, 0usize)],
            s >= 1 ==> !(tri[0] == a && tri[1] == b) && !(tri[0] == b && tri[1] == a),
            s >= 2 ==> !(tri[1] == a && tri[2] == b) && !(tri[1] == b && tri[2] == a),
            s >= 3 ==> !(tri[2] == a && tri[0] == b) && !(tri[2] == b && tri[0] == a),
        decreases 3 - s,
    {
        let (i, j) = sides[s];
        if tri[i] == a && tri[j] == b {
            return true;
        }
        if tri[i] == b && tri[j] == a {
            return false;
        }
        s = s + 1;
    }
    true
}

/// Number of `false` entries among the first `upto` flags.
spec fn count_unvisited(v: Seq<bool>, upto: nat) -> nat
    decreases upto,
{
    if upto == 0 {
        0
    } else {
        count_unvisited(v, (upto - 1) as nat) + (if v[upto - 1] {
            0nat
        } else {
            1nat
        })
    }
}

proof fn lemma_count_visit(v: Seq<bool>, i: int, upto: nat)
    requires
        0 <= i < v.len(),
        upto <= v.len(),
        !v[i],
    ensures
        i < upto ==> count_unvisited(v.update(i, true), upto) + 1 == count_unvisited(v, upto),
        i >= upto ==> count_unvisited(v.update(i, true), upto) == count_unvisited(v, upto),
    decreases upto,
{
    if upto > 0 {
        lemma_count_visit(v, i, (upto - 1) as nat);
    }
}

/// `f` and `g` are the two faces of edge `key`, in either order.
pub open spec fn two_face_pair(tris: Seq<[u32; 3]>, key: (u32, u32), f: u32, g: u32) -> bool {
    &&& incident_faces(tris, key).len() == 2
    &&& ((incident_faces(tris, key)[0] == f && incident_faces(tris, key)[1] == g) || (incident_faces(
        tris,
        key,
    )[0] == g && incident_faces(tris, key)[1] == f))
}

/// Faces `f` and `g` are the two faces of some edge.
pub open spec fn two_face_linked(tris: Seq<[u32; 3]>, f: u32, g: u32) -> bool {
    exists|key: (u32, u32)| #[trigger] two_face_pair(tris, key, f, g)
}

/// Consecutive faces of `path` are the two faces of some edge.
pub open spec fn is_link_path(tris: Seq<[u32; 3]>, path: Seq<u32>) -> bool {
    &&& path.len() >= 1
    &&& forall|k: int| 0 <= k < path.len() - 1 ==> two_face_linked(tris, #[trigger] path[k], path[k + 1])
}

/// No face of smaller index than `f` can be reached from `f` across edges
/// with exactly two faces.
pub open spec fn first_of_linked_part(tris: Seq<[u32; 3]>, f: u32) -> bool {
    forall|path: Seq<u32>|
        #[trigger] is_link_path(tris, path) && path[0] == f ==> path[path.len() - 1] >= f
}

/// Face `g` of `result` is placed in a forest over the two-face edges of
/// `orig`: it is `orig[g]`, reversed exactly when `flips[g]` holds. A root
/// is the first face of its linked part and keeps its winding; any other
/// face has a parent of smaller depth that shares the two-face edge
/// `key_of[g]` with it, and is reversed relative to that parent as placed
/// exactly when the two faces, as given in `orig`, walk the edge in the
/// same direction.
pub open spec fn forest_at(
    orig: Seq<[u32; 3]>,
    result: Seq<[u32; 3]>,
    parent: Seq<int>,
    key_of: Seq<(u32, u32)>,
    depth: Seq<nat>,
    flips: Seq<bool>,
    g: int,
) -> bool {
    &&& result[g] == oriented(orig[g], flips[g])
    &&& if parent[g] < 0 {
        !flips[g] && first_of_linked_part(orig, g as u32)
    } else {
        &&& parent[g] < orig.len()
        &&& depth[parent[g]] < depth[g]
        &&& two_face_pair(orig, key_of[g], parent[g] as u32, g as u32)
        &&& flips[g] == (misoriented_edge(orig, key_of[g]) != flips[parent[g]])
    }
}

/// `result` is `orig` re-oriented along a forest over its two-face edges
/// (see [`forest_at`]), every face placed.
pub open spec fn oriented_along_forest(
    orig: Seq<[u32; 3]>,
    result: Seq<[u32; 3]>,
    parent: Seq<int>,
    key_of: Seq<(u32, u32)>,
    depth: Seq<nat>,
    flips: Seq<bool>,
) -> bool {
    &&& result.len() == orig.len()
    &&& parent.len() == orig.len()
    &&& key_of.len() == orig.len()
    &&& depth.len() == orig.len()
    &&& flips.len() == orig.len()
    &&& forall|g: int|
        0 <= g < orig.len() ==> #[trigger] forest_at(orig, result, parent, key_of, depth, flips, g)
}

/// Reversing the faces marked in `sigma` makes the two faces of every
/// two-face edge of `tris` walk it in opposite directions.
pub open spec fn orients(tris: Seq<[u32; 3]>, sigma: Seq<bool>) -> bool {
    &&& sigma.len() == tris.len()
    &&& forall|key: (u32, u32)|
        #![trigger incident_faces(tris, key)]
        incident_faces(tris, key).len() == 2 ==> walks_edge_forward(
            oriented(tris[incident_faces(tris, key)[0] as int], sigma[incident_faces(tris, key)[0] as int]),
            key.0,
            key.1,
        ) != walks_edge_forward(
            oriented(tris[incident_faces(tris, key)[1] as int], sigma[incident_faces(tris, key)[1] as int]),
            key.0,
            key.1,
        )
}

/// Some choice of faces to reverse makes every two-face edge of `tris`
/// walked in opposite directions by its two faces.
pub open spec fn orientable(tris: Seq<[u32; 3]>) -> bool {
    exists|sigma: Seq<bool>| #[trigger] orients(tris, sigma)
}

/// In `tris`, the two faces of every two-face edge of `orig` walk that
/// edge in opposite directions.
pub open spec fn two_face_edges_agree(orig: Seq<[u32; 3]>, tris: Seq<[u32; 3]>) -> bool {
    forall|key: (u32, u32)|
        #![trigger incident_faces(orig, key)]
        incident_faces(orig, key).len() == 2 ==> walks_edge_forward(
            tris[incident_faces(orig, key)[0] as int],
            key.0,
            key.1,
        ) != walks_edge_forward(tris[incident_faces(orig, key)[1] as int], key.0, key.1)
}

/// Every listed neighbour shares a two-face edge with its face, and the
/// flag tells whether both faces walk that edge in the same direction.
spec fn orient_adj_ok(adj: Seq<Vec<(u32, bool)>>, tris: Seq<[u32; 3]>) -> bool {
    forall|f: int, x: int|
        0 <= f < adj.len() && 0 <= x < adj[f]@.len() ==> (#[trigger] adj[f]@[x]).0 < tris.len()
            && exists|key: (u32, u32)|
            #[trigger] two_face_pair(tris, key, f as u32, adj[f]@[x].0) && adj[f]@[x].1
                == misoriented_edge(tris, key)
}

/// `g` is listed among the neighbours of `f`.
spec fn adj_has(adj: Seq<Vec<(u32, bool)>>, f: int, g: u32) -> bool {
    exists|x: int| 0 <= x < adj[f]@.len() && (#[trigger] adj[f]@[x]).0 == g
}

/// The two faces of every two-face edge list each other as neighbours.
spec fn orient_adj_complete(adj: Seq<Vec<(u32, bool)>>, tris: Seq<[u32; 3]>) -> bool {
    forall|key: (u32, u32), f: u32, g: u32| #[trigger] two_face_pair(tris, key, f, g) ==> adj_has(adj, f as int, g)
}

/// Every neighbour of `f` has been reached.
spec fn closed_at(adj: Seq<Vec<(u32, bool)>>, visited: Seq<bool>, f: int) -> bool {
    forall|x: int| 0 <= x < adj[f]@.len() ==> visited[(#[trigger] adj[f]@[x]).0 as int]
}

proof fn lemma_path_stays_unreached(
    tris: Seq<[u32; 3]>,
    adj: Seq<Vec<(u32, bool)>>,
    visited: Seq<bool>,
    path: Seq<u32>,
    k: int,
)
    requires
        tris.len() <= u32::MAX,
        adj.len() == tris.len(),
        visited.len() == tris.len(),
        orient_adj_complete(adj, tris),
        forall|f: int| 0 <= f < tris.len() && #[trigger] visited[f] ==> closed_at(adj, visited, f),
        is_link_path(tris, path),
        path[0] < tris.len(),
        !visited[path[0] as int],
        0 <= k < path.len(),
    ensures
        path[k] < tris.len(),
        !visited[path[k] as int],
    decreases k,
{
    if k > 0 {
        lemma_path_stays_unreached(tris, adj, visited, path, k - 1);
        assert(two_face_linked(tris, path[k - 1], path[k]));
        let key = choose|key: (u32, u32)| #[trigger] two_face_pair(tris, key, path[k - 1], path[k]);
        assert(two_face_pair(tris, key, path[k], path[k - 1]));
        lemma_incident_faces_in_range(tris, key);
        assert(path[k] < tris.len());
        assert(adj_has(adj, path[k] as int, path[k - 1]));
        if visited[path[k] as int] {
            assert(closed_at(adj, visited, path[k] as int));
            let x = choose|x: int| 0 <= x < adj[path[k] as int]@.len() && (#[trigger] adj[path[k] as int]@[x]).0
                == path[k - 1];
            assert(visited[path[k - 1] as int]);
        }
    }
}

proof fn lemma_unreached_face_is_first(
    tris: Seq<[u32; 3]>,
    adj: Seq<Vec<(u32, bool)>>,
    visited: Seq<bool>,
    start: int,
)
    requires
        tris.len() <= u32::MAX,
        adj.len() == tris.len(),
        visited.len() == tris.len(),
        orient_adj_complete(adj, tris),
        forall|f: int| 0 <= f < tris.len() && #[trigger] visited[f] ==> closed_at(adj, visited, f),
        0 <= start < tris.len(),
        forall|g: int| 0 <= g < start ==> #[trigger] visited[g],
        !visited[start],
    ensures
        first_of_linked_part(tris, start as u32),
{
    assert forall|path: Seq<u32>| #[trigger] is_link_path(tris, path) && path[0] == start as u32 implies path[path.len()
        - 1] >= start as u32 by {
        lemma_path_stays_unreached(tris, adj, visited, path, path.len() - 1);
        if path[path.len() - 1] < start {
            assert(visited[path[path.len() - 1] as int]);
        }
    }
}

/// Each triangle is either as given or with its winding reversed.
pub open spec fn orientation_only(orig: Seq<[u32; 3]>, tris: Seq<[u32; 3]>) -> bool {
    &&& tris.len() == orig.len()
    &&& forall|i: int|
        0 <= i < orig.len() ==> (#[trigger] tris[i] == orig[i] || tris[i] == flipped(orig[i]))
}

/// Make the winding of faces across two-face edges agree, walking the faces
/// depth-first from each face not yet reached and placing each neighbour
/// against its parent as the parent now lies: the neighbour ends up
/// reversed exactly when the two faces, as given, walk their shared edge
/// the same way, or else when the parent was reversed, but not both. The
/// walk follows the edge table in an order that is not stated; every
/// outcome re-orients the mesh along a forest over its two-face edges whose
/// roots are the first faces of their linked parts (see
/// [`oriented_along_forest`]). Where some choice of faces to reverse makes
/// all two-face edges agree, the result has them all agree; a mesh whose
/// two-face edges already agree is left as it is.
pub fn orient_consistent(mesh: &mut MeshIndices)
    requires
        old(mesh).tris@.len() <= u32::MAX,
    ensures
        final(mesh).vertex_count == old(mesh).vertex_count,
        orientation_only(old(mesh).tris@, final(mesh).tris@),
        exists|parent: Seq<int>, key_of: Seq<(u32, u32)>, depth: Seq<nat>, flips: Seq<bool>|
            oriented_along_forest(old(mesh).tris@, final(mesh).tris@, parent, key_of, depth, flips),
        orientable(old(mesh).tris@) ==> two_face_edges_agree(old(mesh).tris@, final(mesh).tris@),
        (forall|key: (u32, u32)| !#[trigger] misoriented_edge(old(mesh).tris@, key)) ==> final(mesh).tris@
            == old(mesh).tris@,
{
    let ghost orig = mesh.tris@;
    let n = mesh.tris.len();
    if n == 0 {
        proof {
            let parent: Seq<int> = Seq::empty();
            let key_of: Seq<(u32, u32)> = Seq::empty();
            let depth: Seq<nat> = Seq::empty();
            let flips: Seq<bool> = Seq::empty();
            assert(oriented_along_forest(orig, mesh.tris@, parent, key_of, depth, flips));
            assert(mesh.tris@ =~= orig);
        }
        return;
    }
    let map = EdgeMap::build(mesh);
    let mut adj: Vec<Vec<(u32, bool)>> = Vec::new();
    for f in 0..n
        invariant
            adj@.len() == f,
            forall|x: int| 0 <= x < f ==> (#[trigger] adj@[x])@.len() == 0,
    {
        adj.push(Vec::new());
    }
    let entries = map.edges.entries();
    let ghost m = map@;
    for e in 0..entries.len()
        invariant
            n == orig.len(),
            n <= u32::MAX,
            mesh.tris@ == orig,
            adj@.len() == n,
            is_edge_map_of(m, orig),
            forall|x: int|
                #![trigger entries@[x]]
                0 <= x < entries@.len() ==> m.contains_key(entries@[x].0) && m[entries@[x].0]
                    == entries@[x].1@,
            orient_adj_ok(adj@, orig),
            forall|x: int|
                #![trigger entries@[x]]
                0 <= x < e && entries@[x].1@.len() == 2 ==> adj_has(adj@, entries@[x].1@[0] as int, entries@[x].1@[1])
                    && adj_has(adj@, entries@[x].1@[1] as int, entries@[x].1@[0]),
    {
        let key = entries[e].0;
        let faces = &entries[e].1;
        let ghost a_start = adj@;
        if faces.len() == 2 {
            proof {
                assert(m.contains_key(key));
                assert(faces@ == incident_faces(orig, key));
                lemma_incident_faces_in_range(orig, key);
                assert(faces@.contains(faces@[0]) && faces@.contains(faces@[1]));
            }
            let f0 = faces[0];
            let f1 = faces[1];
            let (a, b) = key;
            let same = same_edge_direction(&mesh.tris[f0 as usize], a, b) == same_edge_direction(
                &mesh.tris[f1 as usize],
                a,
                b,
            );
            proof {
                assert(two_face_pair(orig, key, f0, f1));
                assert(two_face_pair(orig, key, f1, f0));
                assert(same == misoriented_edge(orig, key));
            }
            let ghost a0 = adj@;
            adj[f0 as usize].push((f1, same));
            let ghost a1 = adj@;
            adj[f1 as usize].push((f0, same));
            proof {
                assert forall|f: int, x: int|
                    0 <= f < adj@.len() && 0 <= x < adj@[f]@.len() implies (#[trigger] adj@[f]@[x]).0
                    < orig.len() && exists|k2: (u32, u32)|
                    #[trigger] two_face_pair(orig, k2, f as u32, adj@[f]@[x].0) && adj@[f]@[x].1
                        == misoriented_edge(orig, k2) by {
                    if f == f1 as int && x == adj@[f]@.len() - 1 {
                        assert(two_face_pair(orig, key, f as u32, adj@[f]@[x].0));
                    } else {
                        assert(adj@[f]@[x] == a1[f]@[x]);
                        if f == f0 as int && x == a1[f]@.len() - 1 {
                            assert(two_face_pair(orig, key, f as u32, adj@[f]@[x].0));
                        } else {
                            assert(a1[f]@[x] == a0[f]@[x]);
                        }
                    }
                }
                assert(forall|f: int, x: int| 0 <= f < n && 0 <= x < a0[f]@.len() ==> adj@[f]@[x] == a0[f]@[x]) by {
                    assert forall|f: int, x: int| 0 <= f < n && 0 <= x < a0[f]@.len() implies adj@[f]@[x] == a0[f]@[x] by {
                        assert(a1[f]@[x] == a0[f]@[x]);
                    }
                }
                assert(adj@[f0 as int]@[a0[f0 as int]@.len() as int] == (f1, same));
                assert(adj@[f1 as int]@[a1[f1 as int]@.len() as int] == (f0, same));
                assert(adj_has(adj@, f0 as int, f1));
                assert(adj_has(adj@, f1 as int, f0));
                assert forall|x: int|
                    #![trigger entries@[x]]
                    0 <= x < e + 1 && entries@[x].1@.len() == 2 implies adj_has(adj@, entries@[x].1@[0] as int, entries@[x].1@[1])
                        && adj_has(adj@, entries@[x].1@[1] as int, entries@[x].1@[0]) by {
                    if x < e {
                        let p = entries@[x].1@[0] as int;
                        let q = entries@[x].1@[1] as int;
                        lemma_incident_faces_in_range(orig, entries@[x].0);
                        assert(entries@[x].1@ == incident_faces(orig, entries@[x].0));
                        let y1 = choose|y: int| 0 <= y < a_start[p]@.len() && (#[trigger] a_start[p]@[y]).0 == entries@[x].1@[1];
                        assert(adj@[p]@[y1] == a_start[p]@[y1]);
                        let y2 = choose|y: int| 0 <= y < a_start[q]@.len() && (#[trigger] a_start[q]@[y]).0 == entries@[x].1@[0];
                        assert(adj@[q]@[y2] == a_start[q]@[y2]);
                    }
                }
            }
        }
    }
    proof {
        assert forall|key: (u32, u32), f: u32, g: u32| #[trigger] two_face_pair(orig, key, f, g) implies adj_has(adj@, f as int, g) by {
            assert(faces_on_sides(orig, 3 * orig.len(), key).len() > 0);
            assert(m.contains_key(key));
            let x = choose|x: int| 0 <= x < entries@.len() && entries@[x].0 == key;
            assert(entries@[x].1@ == incident_faces(orig, key));
        }
    }
    let mut visited: Vec<bool> = Vec::new();
    let mut flips: Vec<bool> = Vec::new();
    for f in 0..n
        invariant
            visited@.len() == f,
            flips@.len() == f,
            forall|x: int| 0 <= x < f ==> !(#[trigger] visited@[x]),
            forall|x: int| 0 <= x < f ==> !(#[trigger] flips@[x]),
    {
        visited.push(false);
        flips.push(false);
    }
    let ghost mut parent: Seq<int> = Seq::new(n as nat, |i: int| -1int);
    let ghost mut key_of: Seq<(u32, u32)> = Seq::new(n as nat, |i: int| (0u32, 0u32));
    let ghost mut depth: Seq<nat> = Seq::new(n as nat, |i: int| 0nat);
    for start in 0..n
        invariant
            n == orig.len(),
            n <= u32::MAX,
            adj@.len() == n,
            visited@.len() == n,
            flips@.len() == n,
            parent.len() == n,
            key_of.len() == n,
            depth.len() == n,
            orient_adj_ok(adj@, orig),
            orient_adj_complete(adj@, orig),
            mesh.vertex_count == old(mesh).vertex_count,
            orig == old(mesh).tris@,
            mesh.tris@.len() == n,
            orientation_only(orig, mesh.tris@),
            forall|g: int| 0 <= g < n && #[trigger] visited@[g] ==> forest_at(orig, mesh.tris@, parent, key_of, depth, flips@, g),
            forall|g: int| 0 <= g < n && !(#[trigger] visited@[g]) ==> !flips@[g],
            forall|g: int| 0 <= g < n && #[trigger] visited@[g] && parent[g] >= 0 ==> visited@[parent[g]],
            forall|g: int| 0 <= g < n && !(#[trigger] visited@[g]) ==> mesh.tris@[g] == orig[g],
            forall|g: int| 0 <= g < start ==> #[trigger] visited@[g],
            forall|f: int| 0 <= f < n && #[trigger] visited@[f] ==> closed_at(adj@, visited@, f),
    {
        if !visited[start] {
            proof {
                lemma_unreached_face_is_first(orig, adj@, visited@, start as int);
            }
            let mut stack: Vec<usize> = Vec::new();
            stack.push(start);
            let ghost v0 = visited@;
            visited.set(start, true);
            proof {
                lemma_count_visit(v0, start as int, n as nat);
                parent = parent.update(start as int, -1int);
                depth = depth.update(start as int, 0nat);
                assert forall|f: int| 0 <= f < n && #[trigger] visited@[f] && !stack@.contains(f as usize) implies closed_at(adj@, visited@, f) by {
                    if f != start as int {
                        assert(v0[f]);
                        assert(closed_at(adj@, v0, f));
                    } else {
                        assert(stack@[0] == start);
                    }
                }
                assert forall|g: int| 0 <= g < n && #[trigger] visited@[g] implies forest_at(orig, mesh.tris@, parent, key_of, depth, flips@, g) by {
                    if g != start as int {
                        assert(v0[g]);
                        if parent[g] >= 0 {
                            assert(v0[parent[g]]);
                        }
                    } else {
                        assert(!v0[g]);
                    }
                }
                assert forall|g: int| 0 <= g < n && !(#[trigger] visited@[g]) implies !flips@[g] by {
                    assert(!v0[g]);
                }
                assert forall|g: int| 0 <= g < n && #[trigger] visited@[g] && parent[g] >= 0 implies visited@[parent[g]] by {
                    if g != start as int {
                        assert(v0[g]);
                    }
                }
            }
            while stack.len() > 0
                invariant
                    n == orig.len(),
                    n <= u32::MAX,
                    adj@.len() == n,
                    visited@.len() == n,
                    flips@.len() == n,
                    parent.len() == n,
                    key_of.len() == n,
                    depth.len() == n,
                    start < n,
                    visited@[start as int],
                    orient_adj_ok(adj@, orig),
                    orient_adj_complete(adj@, orig),
                    mesh.vertex_count == old(mesh).vertex_count,
                    orig == old(mesh).tris@,
                    mesh.tris@.len() == n,
                    orientation_only(orig, mesh.tris@),
                    forall|g: int| 0 <= g < n && #[trigger] visited@[g] ==> forest_at(orig, mesh.tris@, parent, key_of, depth, flips@, g),
            forall|g: int| 0 <= g < n && !(#[trigger] visited@[g]) ==> !flips@[g],
                    forall|g: int| 0 <= g < n && #[trigger] visited@[g] && parent[g] >= 0 ==> visited@[parent[g]],
                    forall|g: int| 0 <= g < n && !(#[trigger] visited@[g]) ==> mesh.tris@[g] == orig[g],
                    forall|g: int| 0 <= g < start ==> #[trigger] visited@[g],
                    forall|p: int| 0 <= p < stack@.len() ==> (#[trigger] stack@[p]) < n && visited@[stack@[p] as int],
                    forall|f: int|
                        0 <= f < n && #[trigger] visited@[f] && !stack@.contains(f as usize) ==> closed_at(adj@, visited@, f),
                decreases 2 * count_unvisited(visited@, n as nat) + stack@.len(),
            {
                let ghost measure0 = 2 * count_unvisited(visited@, n as nat) + stack@.len();
                let ghost stack0 = stack@;
                let f = stack.pop().unwrap();
                proof {
                    assert(stack@.len() + 1 == measure0 - 2 * count_unvisited(visited@, n as nat));
                    assert(stack0 == stack@.push(f));
                    assert(stack0[stack@.len() as int] == f);
                    assert forall|q: int| 0 <= q < stack@.len() implies stack@[q] == stack0[q] by {}
                }
                let nbrs = &adj[f];
                let mut k: usize = 0;
                while k < nbrs.len()
                    invariant
                        n == orig.len(),
                        n <= u32::MAX,
                        f < n,
                        nbrs@ == adj@[f as int]@,
                        adj@.len() == n,
                        visited@.len() == n,
                        flips@.len() == n,
                        parent.len() == n,
                        key_of.len() == n,
                        depth.len() == n,
                        start < n,
                        visited@[start as int],
                        visited@[f as int],
                        k <= nbrs@.len(),
                        orient_adj_ok(adj@, orig),
                        orient_adj_complete(adj@, orig),
                        mesh.vertex_count == old(mesh).vertex_count,
                        orig == old(mesh).tris@,
                        mesh.tris@.len() == n,
                        orientation_only(orig, mesh.tris@),
                        forall|g: int| 0 <= g < n && #[trigger] visited@[g] ==> forest_at(orig, mesh.tris@, parent, key_of, depth, flips@, g),
            forall|g: int| 0 <= g < n && !(#[trigger] visited@[g]) ==> !flips@[g],
                        forall|g: int| 0 <= g < n && #[trigger] visited@[g] && parent[g] >= 0 ==> visited@[parent[g]],
                        forall|g: int| 0 <= g < n && !(#[trigger] visited@[g]) ==> mesh.tris@[g] == orig[g],
                        forall|g: int| 0 <= g < start ==> #[trigger] visited@[g],
                        forall|p: int| 0 <= p < stack@.len() ==> (#[trigger] stack@[p]) < n && visited@[stack@[p] as int],
                        forall|h: int|
                            0 <= h < n && h != f && #[trigger] visited@[h] && !stack@.contains(h as usize) ==> closed_at(
                                adj@,
                                visited@,
                                h,
                            ),
                        forall|x: int| 0 <= x < k ==> visited@[(#[trigger] nbrs@[x]).0 as int],
                        2 * count_unvisited(visited@, n as nat) + stack@.len() < measure0,
                    decreases nbrs@.len() - k,
                {
                    let (nb, need_flip) = nbrs[k];
                    proof {
                        assert(orient_adj_ok(adj@, orig));
                        assert(adj@[f as int]@[k as int] == nbrs@[k as int]);
                    }
                    if !visited[nb as usize] {
                        let ghost vb = visited@;
                        let ghost tb = mesh.tris@;
                        let ghost sb = stack@;
                        let ghost pb = parent;
                        let ghost kb = key_of;
                        let ghost db = depth;
                        let ghost fb = flips@;
                        let do_flip = need_flip != flips[f];
                        visited.set(nb as usize, true);
                        flips.set(nb as usize, do_flip);
                        proof {
                            lemma_count_visit(vb, nb as int, n as nat);
                            let key = choose|key: (u32, u32)|
                                #[trigger] two_face_pair(orig, key, f as u32, nbrs@[k as int].0) && nbrs@[k as int].1
                                    == misoriented_edge(orig, key);
                            parent = parent.update(nb as int, f as int);
                            key_of = key_of.update(nb as int, key);
                            depth = depth.update(nb as int, db[f as int] + 1);
                        }
                        if do_flip {
                            let t = mesh.tris[nb as usize];
                            mesh.tris.set(nb as usize, [t[0], t[2], t[1]]);
                            proof {
                                assert(mesh.tris@[nb as int] =~= flipped(orig[nb as int]));
                            }
                        }
                        stack.push(nb as usize);
                        proof {
                            let key = key_of[nb as int];
                            assert(two_face_pair(orig, key, f as u32, nb));
                            lemma_incident_faces_in_range(orig, key);
                            if !do_flip {
                                assert(mesh.tris@ == tb);
                            }
                            assert(f as int != nb as int);
                            assert(flips@[f as int] == fb[f as int]);
                            assert forall|i: int| 0 <= i < orig.len() implies (#[trigger] mesh.tris@[i]
                                == orig[i] || mesh.tris@[i] == flipped(orig[i])) by {
                                if i != nb as int {
                                    assert(mesh.tris@[i] == tb[i]);
                                }
                            }
                            assert forall|g: int| 0 <= g < n && #[trigger] visited@[g] implies forest_at(orig, mesh.tris@, parent, key_of, depth, flips@, g) by {
                                if g != nb as int {
                                    assert(vb[g]);
                                    assert(forest_at(orig, tb, pb, kb, db, fb, g));
                                    assert(mesh.tris@[g] == tb[g]);
                                    assert(flips@[g] == fb[g]);
                                    if pb[g] >= 0 {
                                        assert(vb[pb[g]]);
                                        assert(flips@[pb[g]] == fb[pb[g]]);
                                    }
                                } else {
                                    assert(parent[g] == f as int);
                                    assert(depth[f as int] == db[f as int]);
                                    assert(!vb[g]);
                                    assert(tb[g] == orig[g]);
                                }
                            }
                            assert forall|g: int| 0 <= g < n && !(#[trigger] visited@[g]) implies mesh.tris@[g] == orig[g] && !flips@[g] by {
                                assert(!vb[g]);
                            }
                            assert forall|g: int| 0 <= g < n && #[trigger] visited@[g] && parent[g] >= 0 implies visited@[parent[g]] by {
                                if g != nb as int {
                                    assert(vb[g]);
                                }
                            }
                            assert forall|p: int| 0 <= p < stack@.len() implies (#[trigger] stack@[p]) < n && visited@[stack@[p] as int] by {
                                if p < sb.len() {
                                    assert(stack@[p] == sb[p]);
                                }
                            }
                            assert forall|h: int|
                                0 <= h < n && h != f && #[trigger] visited@[h] && !stack@.contains(h as usize) implies closed_at(
                                    adj@,
                                    visited@,
                                    h,
                                ) by {
                                if h == nb as int {
                                    assert(stack@[sb.len() as int] == nb as usize);
                                } else {
                                    assert(vb[h]);
                                    if sb.contains(h as usize) {
                                        let q = choose|q: int| 0 <= q < sb.len() && sb[q] == h as usize;
                                        assert(stack@[q] == h as usize);
                                    }
                                    assert(closed_at(adj@, vb, h));
                                }
                            }
                        }
                    }
                    k = k + 1;
                }
                proof {
                    assert(closed_at(adj@, visited@, f as int));
                }
            }
        }
    }
    proof {
        assert forall|g: int| 0 <= g < orig.len() implies #[trigger] forest_at(orig, mesh.tris@, parent, key_of, depth, flips@, g) by {
            assert(visited@[g]);
        }
        assert(oriented_along_forest(orig, mesh.tris@, parent, key_of, depth, flips@));
        if orientable(orig) {
            lemma_orienting_orientable_mesh_makes_edges_agree(orig, mesh.tris@);
        }
        if forall|key: (u32, u32)| !#[trigger] misoriented_edge(orig, key) {
            lemma_orienting_consistent_mesh_keeps_it(orig, mesh.tris@);
        }
    }
}

/// Outcome of a single repair step.
#[derive(Debug, Clone)]
pub struct StepOutcome {
    /// Short description of what changed.
    pub summary: String,
    /// Whether the mesh was modified.
    pub changed: bool,
}

/// Options for the full repair pipeline.
#[derive(Debug, Clone)]
pub struct RepairOptions {
    /// Drop disconnected specks.
    pub drop_specks: bool,
}

impl Default for RepairOptions {
    fn default() -> (r: RepairOptions)
        ensures
            r.drop_specks,
    {
        RepairOptions { drop_specks: true }
    }
}

impl MeshIndices {
    /// Flip winding of every triangle.
    pub fn flip_winding(&mut self)
        ensures
            final(self).vertex_count == old(self).vertex_count,
            final(self).tris@.len() == old(self).tris@.len(),
            forall|i: int|
                0 <= i < old(self).tris@.len() ==> #[trigger] final(self).tris@[i] == flipped(
                    old(self).tris@[i],
                ),
    {
        let n = self.tris.len();
        for i in 0..n
            invariant
                n == self.tris@.len(),
                self.vertex_count == old(self).vertex_count,
                self.tris@.len() == old(self).tris@.len(),
                forall|j: int| 0 <= j < i ==> #[trigger] self.tris@[j] == flipped(old(self).tris@[j]),
                forall|j: int| i <= j < n ==> #[trigger] self.tris@[j] == old(self).tris@[j],
        {
            let t = self.tris[i];
            self.tris.set(i, [t[0], t[2], t[1]]);
        }
    }
}

/// Triangle `t` with each index `v` replaced by `remap[v]`.
pub open spec fn remapped(t: [u32; 3], remap: Seq<u32>) -> [u32; 3] {
    [remap[t[0] as int], remap[t[1] as int], remap[t[2] as int]]
}

/// Rewrites the triangles through the vertex map of a weld (old index to
/// welded index) and records the welded vertex count.
pub fn apply_weld(mesh: &mut MeshIndices, remap: &Vec<u32>, welded_count: usize) -> (r: StepOutcome)
    requires
        indices_below(old(mesh).tris@, remap@.len() as int),
    ensures
        final(mesh).vertex_count == welded_count,
        final(mesh).tris@.len() == old(mesh).tris@.len(),
        forall|i: int|
            0 <= i < old(mesh).tris@.len() ==> #[trigger] final(mesh).tris@[i] == remapped(
                old(mesh).tris@[i],
                remap@,
            ),
        r.summary@ == "welded vertices "@ + decimal(old(mesh).vertex_count as nat) + " -> "@
            + decimal(welded_count as nat),
        r.changed == (old(mesh).vertex_count != welded_count),
{
    let before = mesh.vertex_count;
    let n = mesh.tris.len();
    for i in 0..n
        invariant
            n == mesh.tris@.len(),
            mesh.tris@.len() == old(mesh).tris@.len(),
            mesh.vertex_count == before,
            indices_below(old(mesh).tris@, remap@.len() as int),
            forall|j: int| 0 <= j < i ==> #[trigger] mesh.tris@[j] == remapped(old(mesh).tris@[j], remap@),
            forall|j: int| i <= j < n ==> #[trigger] mesh.tris@[j] == old(mesh).tris@[j],
    {
        let t = mesh.tris[i];
        proof {
            assert(t[0] < remap@.len() && t[1] < remap@.len() && t[2] < remap@.len()) by {
                assert(old(mesh).tris@[i as int][0] == t[0]);
                assert(old(mesh).tris@[i as int][1] == t[1]);
                assert(old(mesh).tris@[i as int][2] == t[2]);
            }
        }
        mesh.tris.set(i, [remap[t[0] as usize], remap[t[1] as usize], remap[t[2] as usize]]);
    }
    mesh.vertex_count = welded_count;
    let mut summary = String::from_str("welded vertices ");
    push_decimal(&mut summary, before as u64);
    summary.append(" -> ");
    push_decimal(&mut summary, welded_count as u64);
    proof {
        reveal_strlit("welded vertices ");
        reveal_strlit(" -> ");
    }
    StepOutcome { summary, changed: before != welded_count }
}

/// The triangles among the first `k` whose flag is set, in order.
pub open spec fn selected_upto(tris: Seq<[u32; 3]>, flags: Seq<bool>, k: nat) -> Seq<[u32; 3]>
    decreases k,
{
    if k == 0 {
        Seq::empty()
    } else if flags[k - 1] {
        selected_upto(tris, flags, (k - 1) as nat).push(tris[k - 1])
    } else {
        selected_upto(tris, flags, (k - 1) as nat)
    }
}

/// The triangles whose flag is set, in order.
pub open spec fn selected(tris: Seq<[u32; 3]>, flags: Seq<bool>) -> Seq<[u32; 3]> {
    selected_upto(tris, flags, tris.len())
}

/// Triangle `t` uses three different vertices.
pub open spec fn distinct_indices(t: [u32; 3]) -> bool {
    t[0] != t[1] && t[1] != t[2] && t[0] != t[2]
}

/// Which triangles the degenerate step keeps: three different vertices and
/// an area flagged as large enough.
pub open spec fn nondegenerate_flags(tris: Seq<[u32; 3]>, area_ok: Seq<bool>) -> Seq<bool> {
    Seq::new(tris.len(), |i: int| distinct_indices(tris[i]) && area_ok[i])
}

proof fn lemma_selected_len(tris: Seq<[u32; 3]>, flags: Seq<bool>, k: nat)
    ensures
        selected_upto(tris, flags, k).len() <= k,
    decreases k,
{
    if k > 0 {
        lemma_selected_len(tris, flags, (k - 1) as nat);
    }
}

/// Removes the triangles that repeat a vertex or whose area is flagged as
/// too small (`area_ok[i]` false: below the degenerate-area threshold).
pub fn apply_degenerate(mesh: &mut MeshIndices, area_ok: &Vec<bool>) -> (r: StepOutcome)
    requires
        area_ok@.len() == old(mesh).tris@.len(),
    ensures
        final(mesh).vertex_count == old(mesh).vertex_count,
        final(mesh).tris@ == selected(old(mesh).tris@, nondegenerate_flags(old(mesh).tris@, area_ok@)),
        r.summary@ == "removed "@ + decimal((old(mesh).tris@.len() - final(mesh).tris@.len()) as nat)
            + " degenerate triangles"@,
        r.changed == (old(mesh).tris@.len() != final(mesh).tris@.len()),
{
    let ghost tris = mesh.tris@;
    let ghost flags = nondegenerate_flags(tris, area_ok@);
    let before = mesh.tris.len();
    let mut kept: Vec<[u32; 3]> = Vec::new();
    for i in 0..before
        invariant
            before == tris.len(),
            tris == mesh.tris@,
            area_ok@.len() == before,
            flags == nondegenerate_flags(tris, area_ok@),
            kept@ == selected_upto(tris, flags, i as nat),
    {
        let t = mesh.tris[i];
        if t[0] != t[1] && t[1] != t[2] && t[0] != t[2] && area_ok[i] {
            kept.push(t);
        }
    }
    mesh.tris = kept;
    let after = mesh.tris.len();
    proof {
        lemma_selected_len(tris, flags, before as nat);
    }
    let mut summary = String::from_str("removed ");
    push_decimal(&mut summary, (before - after) as u64);
    summary.append(" degenerate triangles");
    proof {
        reveal_strlit("removed ");
        reveal_strlit(" degenerate triangles");
    }
    StepOutcome { summary, changed: before != after }
}

/// The indices of triangle `t` in ascending order.
pub open spec fn sorted_key(t: [u32; 3]) -> [u32; 3] {
    let (a, b, c) = (t[0], t[1], t[2]);
    if a <= b && b <= c {
        [a, b, c]
    } else if a <= c && c <= b {
        [a, c, b]
    } else if b <= a && a <= c {
        [b, a, c]
    } else if b <= c && c <= a {
        [b, c, a]
    } else if c <= a && a <= b {
        [c, a, b]
    } else {
        [c, b, a]
    }
}

/// `s` holds the entries of `t` in some order: `s[0]`, `s[1]`, `s[2]` are
/// `t[i]`, `t[j]`, `t[k]` for three different positions `i`, `j`, `k`.
pub open spec fn rearranges(s: [u32; 3], t: [u32; 3]) -> bool {
    exists|i: int, j: int, k: int|
        0 <= i < 3 && 0 <= j < 3 && 0 <= k < 3 && i != j && j != k && i != k && s[0] == #[trigger] t[i]
            && s[1] == #[trigger] t[j] && s[2] == #[trigger] t[k]
}

/// The key of a triangle is its three indices in ascending order: it
/// holds the triangle's entries, rearranged, and it is sorted.
pub proof fn lemma_sorted_key_sorts(t: [u32; 3])
    ensures
        sorted_key(t)[0] <= sorted_key(t)[1] <= sorted_key(t)[2],
        rearranges(sorted_key(t), t),
{
    let k = sorted_key(t);
    let (a, b, c) = (t[0], t[1], t[2]);
    if a <= b && b <= c {
        assert(k[0] == t[0] && k[1] == t[1] && k[2] == t[2]);
    } else if a <= c && c <= b {
        assert(k[0] == t[0] && k[1] == t[2] && k[2] == t[1]);
    } else if b <= a && a <= c {
        assert(k[0] == t[1] && k[1] == t[0] && k[2] == t[2]);
    } else if b <= c && c <= a {
        assert(k[0] == t[1] && k[1] == t[2] && k[2] == t[0]);
    } else if c <= a && a <= b {
        assert(k[0] == t[2] && k[1] == t[0] && k[2] == t[1]);
    } else {
        assert(k[0] == t[2] && k[1] == t[1] && k[2] == t[0]);
    }
}

/// Two triangles whose entries are the same up to order have the same key:
/// the key does not see the winding or the starting corner.
pub proof fn lemma_sorted_key_ignores_order(s: [u32; 3], t: [u32; 3])
    requires
        rearranges(s, t),
    ensures
        sorted_key(s) == sorted_key(t),
{
    let (i, j, k) = choose|i: int, j: int, k: int|
        0 <= i < 3 && 0 <= j < 3 && 0 <= k < 3 && i != j && j != k && i != k && s[0] == #[trigger] t[i]
            && s[1] == #[trigger] t[j] && s[2] == #[trigger] t[k];
    lemma_sorted_key_sorts(s);
    lemma_sorted_key_sorts(t);
    let ks = sorted_key(s);
    let kt = sorted_key(t);
    assert(ks =~= kt);
}

/// The indices of `t` sorted ascending.
pub fn sort_indices(t: [u32; 3]) -> (r: [u32; 3])
    ensures
        r == sorted_key(t),
        r[0] <= r[1] <= r[2],
        rearranges(r, t),
{
    proof {
        lemma_sorted_key_sorts(t);
    }
    let (a, b, c) = (t[0], t[1], t[2]);
    let r = if a <= b && b <= c {
        [a, b, c]
    } else if a <= c && c <= b {
        [a, c, b]
    } else if b <= a && a <= c {
        [b, a, c]
    } else if b <= c && c <= a {
        [b, c, a]
    } else if c <= a && a <= b {
        [c, a, b]
    } else {
        [c, b, a]
    };
    assert(r =~= sorted_key(t));
    r
}

/// Triangle `i` uses a vertex set that no earlier triangle uses.
pub open spec fn first_of_its_kind(tris: Seq<[u32; 3]>, i: int) -> bool {
    forall|j: int| 0 <= j < i ==> #[trigger] sorted_key(tris[j]) != sorted_key(tris[i])
}

/// Which triangles the duplicate-face step keeps: the first triangle of
/// each vertex set, whatever its winding.
pub open spec fn unique_face_flags(tris: Seq<[u32; 3]>) -> Seq<bool> {
    Seq::new(tris.len(), |i: int| first_of_its_kind(tris, i))
}

/// Removes exact duplicate faces (same three indices, any winding), keeping
/// the first of each.
pub fn remove_duplicate_faces(mesh: &mut MeshIndices) -> (r: StepOutcome)
    ensures
        final(mesh).vertex_count == old(mesh).vertex_count,
        final(mesh).tris@ == selected(old(mesh).tris@, unique_face_flags(old(mesh).tris@)),
        r.summary@ == "removed "@ + decimal((old(mesh).tris@.len() - final(mesh).tris@.len()) as nat)
            + " duplicate faces"@,
        r.changed == (old(mesh).tris@.len() != final(mesh).tris@.len()),
{
    let ghost tris = mesh.tris@;
    let ghost flags = unique_face_flags(tris);
    let before = mesh.tris.len();
    let mut seen = FaceKeys::new();
    let mut kept: Vec<[u32; 3]> = Vec::new();
    for i in 0..before
        invariant
            before == tris.len(),
            tris == mesh.tris@,
            flags == unique_face_flags(tris),
            kept@ == selected_upto(tris, flags, i as nat),
            forall|key: [u32; 3]|
                #[trigger] face_keys_contents(seen).contains(key) <==> exists|j: int|
                    0 <= j < i && #[trigger] sorted_key(tris[j]) == key,
    {
        let t = mesh.tris[i];
        let key = sort_indices(t);
        let ghost s0 = face_keys_contents(seen);
        let fresh = seen.insert(key);
        proof {
            assert(fresh == first_of_its_kind(tris, i as int)) by {
                if !fresh {
                    let j = choose|j: int| 0 <= j < i && #[trigger] sorted_key(tris[j]) == key;
                    assert(sorted_key(tris[j]) == sorted_key(tris[i as int]));
                }
            }
            assert forall|k: [u32; 3]|
                #[trigger] face_keys_contents(seen).contains(k) <==> exists|j: int|
                    0 <= j < i + 1 && #[trigger] sorted_key(tris[j]) == k by {
                if k == key {
                    assert(sorted_key(tris[i as int]) == k);
                }
                if exists|j: int| 0 <= j < i + 1 && #[trigger] sorted_key(tris[j]) == k {
                    let j = choose|j: int| 0 <= j < i + 1 && #[trigger] sorted_key(tris[j]) == k;
                    if j < i {
                        assert(s0.contains(k));
                    }
                }
            }
        }
        if fresh {
            kept.push(t);
        }
    }
    mesh.tris = kept;
    let after = mesh.tris.len();
    proof {
        lemma_selected_len(tris, flags, before as nat);
    }
    let mut summary = String::from_str("removed ");
    push_decimal(&mut summary, (before - after) as u64);
    summary.append(" duplicate faces");
    proof {
        reveal_strlit("removed ");
        reveal_strlit(" duplicate faces");
    }
    StepOutcome { summary, changed: before != after }
}

/// Some slot of some triangle holds vertex `v`.
pub open spec fn vertex_used(tris: Seq<[u32; 3]>, v: int) -> bool {
    exists|i: int, c: int| 0 <= i < tris.len() && 0 <= c < 3 && #[trigger] tris[i][c] == v
}

/// Some edge of the triangles has more than two incident faces.
pub open spec fn has_nonmanifold_edge(tris: Seq<[u32; 3]>) -> bool {
    exists|key: (u32, u32)| #[trigger] incident_faces(tris, key).len() > 2
}

/// Slot `c` of face `f` lies on non-manifold edge `key` beyond its first two
/// faces: `f` is the incident face at a position of 2 or more and the slot
/// holds an endpoint of the edge.
pub open spec fn on_excess_face(tris: Seq<[u32; 3]>, key: (u32, u32), p: int, f: int, c: int) -> bool {
    &&& incident_faces(tris, key).len() > 2
    &&& 2 <= p < incident_faces(tris, key).len()
    &&& incident_faces(tris, key)[p] == f
    &&& (tris[f][c] == key.0 || tris[f][c] == key.1)
}

/// Slot `c` of face `f` lies on a non-manifold edge beyond its first two
/// faces and holds an endpoint of that edge.
pub open spec fn excess_slot(tris: Seq<[u32; 3]>, f: int, c: int) -> bool {
    exists|key: (u32, u32), p: int| #[trigger] on_excess_face(tris, key, p, f, c)
}

/// Number of slots, among the first `k` (slot `s` being corner `s % 3` of
/// face `s / 3`), that lie on a non-manifold edge beyond its first two
/// faces: the number of vertices the non-manifold split makes.
pub open spec fn excess_slot_count(tris: Seq<[u32; 3]>, k: nat) -> nat
    decreases k,
{
    if k == 0 {
        0
    } else {
        excess_slot_count(tris, (k - 1) as nat) + (if excess_slot(tris, (k - 1) / 3, (k - 1) % 3) {
            1nat
        } else {
            0nat
        })
    }
}

/// An excess slot among the first `k` makes their count positive.
proof fn lemma_excess_count_positive(tris: Seq<[u32; 3]>, k: nat, s: int)
    requires
        0 <= s < k,
        excess_slot(tris, s / 3, s % 3),
    ensures
        excess_slot_count(tris, k) > 0,
    decreases k,
{
    if s < k - 1 {
        lemma_excess_count_positive(tris, (k - 1) as nat, s);
    }
}

/// Where only excess slots were changed, at most as many slots were changed
/// as there are excess slots, and fewer while an excess slot is unchanged.
proof fn lemma_changed_within_excess(orig: Seq<[u32; 3]>, tris: Seq<[u32; 3]>, k: nat, s0: int)
    requires
        tris.len() == orig.len(),
        k <= 3 * orig.len(),
        forall|i: int, c: int|
            #![trigger tris[i][c]]
            0 <= i < orig.len() && 0 <= c < 3 && tris[i][c] != orig[i][c] ==> excess_slot(orig, i, c),
    ensures
        count_changed(orig, tris, k) <= excess_slot_count(orig, k),
        0 <= s0 < k && excess_slot(orig, s0 / 3, s0 % 3) && tris[s0 / 3][s0 % 3] == orig[s0 / 3][s0 % 3]
            ==> count_changed(orig, tris, k) < excess_slot_count(orig, k),
    decreases k,
{
    if k > 0 {
        lemma_changed_within_excess(orig, tris, (k - 1) as nat, s0);
        let s = k - 1;
        assert(0 <= s / 3 < orig.len());
        if tris[s / 3][s % 3] != orig[s / 3][s % 3] {
            assert(excess_slot(orig, s / 3, s % 3));
        }
    }
}

/// Where exactly the excess slots were changed, the changed slots number
/// the excess slots.
proof fn lemma_changed_is_excess(orig: Seq<[u32; 3]>, tris: Seq<[u32; 3]>, k: nat)
    requires
        tris.len() == orig.len(),
        k <= 3 * orig.len(),
        forall|i: int, c: int|
            0 <= i < orig.len() && 0 <= c < 3 ==> (#[trigger] tris[i][c] != orig[i][c]) == excess_slot(orig, i, c),
    ensures
        count_changed(orig, tris, k) == excess_slot_count(orig, k),
    decreases k,
{
    if k > 0 {
        lemma_changed_is_excess(orig, tris, (k - 1) as nat);
        let s = k - 1;
        assert(0 <= s / 3 < orig.len());
        assert((tris[s / 3][s % 3] != orig[s / 3][s % 3]) == excess_slot(orig, s / 3, s % 3));
    }
}

/// Number of triangle slots, among the first `k`, whose index differs
/// between `orig` and `tris`.
spec fn count_changed(orig: Seq<[u32; 3]>, tris: Seq<[u32; 3]>, k: nat) -> nat
    decreases k,
{
    if k == 0 {
        0
    } else {
        count_changed(orig, tris, (k - 1) as nat) + (if tris[(k - 1) / 3][(k - 1) % 3] != orig[(k
            - 1) / 3][(k - 1) % 3] {
            1nat
        } else {
            0nat
        })
    }
}

proof fn lemma_count_changed_step(
    orig: Seq<[u32; 3]>,
    t0: Seq<[u32; 3]>,
    t1: Seq<[u32; 3]>,
    f: int,
    c: int,
    k: nat,
)
    requires
        0 <= f < t0.len(),
        0 <= c < 3,
        t0.len() == t1.len(),
        t0.len() == orig.len(),
        k <= 3 * t0.len(),
        t0[f][c] == orig[f][c],
        t1[f][c] != orig[f][c],
        forall|i: int, d: int|
            0 <= i < t0.len() && 0 <= d < 3 && (i != f || d != c) ==> #[trigger] t1[i][d]
                == t0[i][d],
    ensures
        3 * f + c < k ==> count_changed(orig, t1, k) == count_changed(orig, t0, k) + 1,
        3 * f + c >= k ==> count_changed(orig, t1, k) == count_changed(orig, t0, k),
    decreases k,
{
    if k > 0 {
        lemma_count_changed_step(orig, t0, t1, f, c, (k - 1) as nat);
        let s = k - 1;
        assert(0 <= s / 3 < t0.len());
        if s != 3 * f + c {
            assert(s / 3 != f || s % 3 != c);
            assert(t1[s / 3][s % 3] == t0[s / 3][s % 3]);
        } else {
            assert(s / 3 == f && s % 3 == c);
        }
    }
}

/// Both ends of every edge with more than two incident faces are below
/// `bound`: the vertices the non-manifold split copies exist.
pub open spec fn nonmanifold_ends_below(tris: Seq<[u32; 3]>, bound: int) -> bool {
    forall|key: (u32, u32)| #[trigger] incident_faces(tris, key).len() > 2 ==> key.0 < bound && key.1 < bound
}

/// Bookkeeping of the non-manifold split: each slot holds the index it had
/// in `orig` or a new vertex made for it (numbered from `vc0`, a copy of
/// that index); new vertex `vc0 + k` sits in slot `slot_of[k]` alone;
/// every changed slot lies on a non-manifold edge beyond its first two faces.
spec fn split_state(
    orig: Seq<[u32; 3]>,
    tris: Seq<[u32; 3]>,
    vc0: int,
    sources: Seq<u32>,
    slot_of: Seq<(int, int)>,
) -> bool {
    &&& tris.len() == orig.len()
    &&& slot_of.len() == sources.len()
    &&& sources.len() == count_changed(orig, tris, 3 * orig.len())
    &&& forall|i: int, c: int|
        0 <= i < tris.len() && 0 <= c < 3 ==> (#[trigger] tris[i][c] == orig[i][c] || (vc0
            <= tris[i][c] < vc0 + sources.len() && slot_of[tris[i][c] - vc0] == (i, c)
            && sources[tris[i][c] - vc0] == orig[i][c] && exists|key: (u32, u32), p: int|
            on_excess_face(orig, key, p, i, c)))
    &&& forall|k: int|
        0 <= k < sources.len() ==> 0 <= (#[trigger] slot_of[k]).0 < tris.len() && 0 <= slot_of[k].1
            < 3 && tris[slot_of[k].0][slot_of[k].1] == vc0 + k
}

/// Separates non-manifold edges: on every edge with more than two incident
/// faces, each face beyond the first two gets a fresh copy of each endpoint
/// it uses. Returns, for each new vertex in order of creation, the vertex
/// it copies, and the step outcome. The copied vertices, the ends of the
/// non-manifold edges, must exist; other indices are not looked at. Where
/// every index names an existing vertex, afterwards no edge has more than
/// two incident faces and the new vertices are used nowhere else. One
/// vertex is made per excess slot (see [`excess_slot_count`]); the new
/// vertex numbers must fit in `u32`.
pub fn split_nonmanifold(mesh: &mut MeshIndices) -> (r: (Vec<u32>, StepOutcome))
    requires
        old(mesh).tris@.len() <= u32::MAX,
        nonmanifold_ends_below(old(mesh).tris@, old(mesh).vertex_count as int),
        old(mesh).vertex_count + excess_slot_count(old(mesh).tris@, 3 * old(mesh).tris@.len()) <= u32::MAX + 1,
        old(mesh).vertex_count + excess_slot_count(old(mesh).tris@, 3 * old(mesh).tris@.len()) <= usize::MAX,
    ensures
        ({
            let orig = old(mesh).tris@;
            let tris = final(mesh).tris@;
            let vc0 = old(mesh).vertex_count as int;
            let sources = r.0@;
            &&& tris.len() == orig.len()
            &&& final(mesh).vertex_count == vc0 + sources.len()
            &&& sources.len() == excess_slot_count(orig, 3 * orig.len())
            &&& forall|i: int, c: int|
                0 <= i < orig.len() && 0 <= c < 3 ==> (#[trigger] tris[i][c] == orig[i][c] || (vc0
                    <= tris[i][c] < vc0 + sources.len() && sources[tris[i][c] - vc0] == orig[i][c]
                    && exists|key: (u32, u32), p: int| on_excess_face(orig, key, p, i, c)))
            &&& forall|i1: int, c1: int, i2: int, c2: int|
                0 <= i1 < orig.len() && 0 <= c1 < 3 && 0 <= i2 < orig.len() && 0 <= c2 < 3 && (i1
                    != i2 || c1 != c2) && #[trigger] tris[i1][c1] != orig[i1][c1] && tris[i2][c2] != orig[i2][c2]
                    ==> tris[i1][c1] != #[trigger] tris[i2][c2]
            &&& indices_below(orig, vc0) ==> forall|i1: int, c1: int, i2: int, c2: int|
                0 <= i1 < orig.len() && 0 <= c1 < 3 && 0 <= i2 < orig.len() && 0 <= c2 < 3 && (i1
                    != i2 || c1 != c2) && #[trigger] tris[i1][c1] >= vc0 ==> tris[i1][c1]
                    != #[trigger] tris[i2][c2]
            &&& forall|v: int| vc0 <= v < vc0 + sources.len() ==> #[trigger] vertex_used(tris, v)
            &&& forall|key: (u32, u32), p: int, c: int|
                0 <= c < 3 && #[trigger] on_excess_face(orig, key, p, incident_faces(orig, key)[p] as int, c)
                    ==> tris[incident_faces(orig, key)[p] as int][c] != orig[incident_faces(orig, key)[p] as int][c]
            &&& indices_below(orig, vc0) ==> !has_nonmanifold_edge(tris)
            &&& r.1.changed == (sources.len() > 0)
            &&& r.1.changed == has_nonmanifold_edge(orig)
            &&& !has_nonmanifold_edge(orig) ==> tris == orig
            &&& r.1.summary@ == (if has_nonmanifold_edge(orig) {
                "separated non-manifold edges"@
            } else {
                "no non-manifold edges"@
            })
        }),
{
    proof {
        reveal_strlit("separated non-manifold edges");
        reveal_strlit("no non-manifold edges");
    }
    let ghost orig = mesh.tris@;
    let ghost vc0 = mesh.vertex_count as int;
    let map = EdgeMap::build(mesh);
    let nm = map.nonmanifold_edges();
    if nm.len() == 0 {
        proof {
            assert(!has_nonmanifold_edge(orig)) by {
                if has_nonmanifold_edge(orig) {
                    let key = choose|key: (u32, u32)| #[trigger] incident_faces(orig, key).len() > 2;
                    assert(map@.contains_key(key));
                    assert(nonmanifold_edge_set(map@).contains(key));
                    assert(nm@.contains(key));
                }
            }
        }
        proof {
            assert forall|i: int, c: int| 0 <= i < orig.len() && 0 <= c < 3 implies (orig[i][c] != orig[i][c]) == excess_slot(orig, i, c) by {
                if excess_slot(orig, i, c) {
                    let (key, p) = choose|key: (u32, u32), p: int| #[trigger] on_excess_face(orig, key, p, i, c);
                    assert(incident_faces(orig, key).len() > 2);
                }
            }
            lemma_changed_is_excess(orig, orig, 3 * orig.len());
            lemma_count_changed_zero(orig, 3 * orig.len());
        }
        return (Vec::new(), StepOutcome { summary: String::from_str("no non-manifold edges"), changed: false });
    }
    proof {
        assert(nm@.contains(nm@[0]));
        assert(has_nonmanifold_edge(orig)) by {
            assert(incident_faces(orig, nm@[0]).len() > 2);
        }
        lemma_count_changed_zero(orig, 3 * orig.len());
    }
    let ghost m = map@;
    let mut sources: Vec<u32> = Vec::new();
    let ghost mut slot_of: Seq<(int, int)> = Seq::empty();
    let mut changed = false;
    for e in 0..nm.len()
        invariant
            orig == old(mesh).tris@,
            vc0 == old(mesh).vertex_count,
            orig.len() <= u32::MAX,
            nonmanifold_ends_below(orig, vc0),
            vc0 + excess_slot_count(orig, 3 * orig.len()) <= u32::MAX + 1,
            vc0 + excess_slot_count(orig, 3 * orig.len()) <= usize::MAX,
            is_edge_map_of(m, orig),
            m == map@,
            forall|key: (u32, u32)| nm@.contains(key) <==> nonmanifold_edge_set(m).contains(key),
            mesh.vertex_count == vc0 + sources@.len(),
            split_state(orig, mesh.tris@, vc0, sources@, slot_of),
            changed == (sources@.len() > 0),
            forall|x: int, p: int, c: int|
                0 <= x < e && 0 <= c < 3 && #[trigger] on_excess_face(orig, nm@[x], p, incident_faces(orig, nm@[x])[p] as int, c)
                    ==> mesh.tris@[incident_faces(orig, nm@[x])[p] as int][c] != orig[incident_faces(orig, nm@[x])[p] as int][c],
    {
        let (a, b) = nm[e];
        let ghost key = (a, b);
        proof {
            assert(nm@.contains(key));
            assert(m.contains_key(key));
            assert(nonmanifold_edge_set(m).contains(key));
            assert(incident_faces(orig, key).len() > 2);
        }
        match map.edges.get((a, b)) {
            Some(faces) => {
                proof {
                    assert(faces@ == incident_faces(orig, key));
                    lemma_incident_faces_in_range(orig, key);
                }
                for p in 2..faces.len()
                    invariant
                        orig == old(mesh).tris@,
                        vc0 == old(mesh).vertex_count,
                        orig.len() <= u32::MAX,
                        nonmanifold_ends_below(orig, vc0),
                        vc0 + excess_slot_count(orig, 3 * orig.len()) <= u32::MAX + 1,
                        vc0 + excess_slot_count(orig, 3 * orig.len()) <= usize::MAX,
                        e < nm@.len(),
                        faces@ == incident_faces(orig, key),
                        faces@.len() > 2,
                        forall|q: int| 0 <= q < faces@.len() ==> (#[trigger] faces@[q]) < orig.len(),
                        key == (a, b),
                        a < vc0,
                        b < vc0,
                        mesh.vertex_count == vc0 + sources@.len(),
                        split_state(orig, mesh.tris@, vc0, sources@, slot_of),
                        changed == (sources@.len() > 0),
                        forall|x: int, q: int, c: int|
                            0 <= x < e && 0 <= c < 3 && #[trigger] on_excess_face(orig, nm@[x], q, incident_faces(orig, nm@[x])[q] as int, c)
                                ==> mesh.tris@[incident_faces(orig, nm@[x])[q] as int][c] != orig[incident_faces(orig, nm@[x])[q] as int][c],
                        forall|q: int, c: int|
                            2 <= q < p && 0 <= c < 3 && #[trigger] on_excess_face(orig, key, q, faces@[q] as int, c)
                                ==> mesh.tris@[faces@[q] as int][c] != orig[faces@[q] as int][c],
                {
                    let face = faces[p] as usize;
                    let mut c: usize = 0;
                    while c < 3
                        invariant
                            orig == old(mesh).tris@,
                            vc0 == old(mesh).vertex_count,
                            orig.len() <= u32::MAX,
                            nonmanifold_ends_below(orig, vc0),
                            vc0 + excess_slot_count(orig, 3 * orig.len()) <= u32::MAX + 1,
                            vc0 + excess_slot_count(orig, 3 * orig.len()) <= usize::MAX,
                            e < nm@.len(),
                            faces@ == incident_faces(orig, key),
                            faces@.len() > 2,
                            2 <= p < faces@.len(),
                            forall|q: int| 0 <= q < faces@.len() ==> (#[trigger] faces@[q]) < orig.len(),
                            face == faces@[p as int],
                            face < orig.len(),
                            key == (a, b),
                            a < vc0,
                            b < vc0,
                            c <= 3,
                            mesh.vertex_count == vc0 + sources@.len(),
                            split_state(orig, mesh.tris@, vc0, sources@, slot_of),
                            changed == (sources@.len() > 0),
                            forall|x: int, q: int, d: int|
                                0 <= x < e && 0 <= d < 3 && #[trigger] on_excess_face(orig, nm@[x], q, incident_faces(orig, nm@[x])[q] as int, d)
                                    ==> mesh.tris@[incident_faces(orig, nm@[x])[q] as int][d] != orig[incident_faces(orig, nm@[x])[q] as int][d],
                            forall|q: int, d: int|
                                2 <= q < p && 0 <= d < 3 && #[trigger] on_excess_face(orig, key, q, faces@[q] as int, d)
                                    ==> mesh.tris@[faces@[q] as int][d] != orig[faces@[q] as int][d],
                            forall|d: int|
                                0 <= d < c && #[trigger] on_excess_face(orig, key, p as int, face as int, d)
                                    ==> mesh.tris@[face as int][d] != orig[face as int][d],
                        decreases 3 - c,
                    {
                        let t = mesh.tris[face];
                        let idx = t[c];
                        if idx == a || idx == b {
                            let ghost t0 = mesh.tris@;
                            let ghost sources0 = sources@;
                            proof {
                                assert(t0[face as int][c as int] == idx);
                                assert(idx < vc0);
                                assert(t0[face as int][c as int] == orig[face as int][c as int]);
                                assert(on_excess_face(orig, key, p as int, face as int, c as int));
                                assert(excess_slot(orig, face as int, c as int));
                                let s0 = 3 * face + c;
                                assert(s0 / 3 == face as int && s0 % 3 == c as int);
                                lemma_changed_within_excess(orig, t0, 3 * orig.len(), s0);
                            }
                            let new_id = mesh.vertex_count as u32;
                            sources.push(idx);
                            mesh.vertex_count = mesh.vertex_count + 1;
                            let nt = if c == 0 {
                                [new_id, t[1], t[2]]
                            } else if c == 1 {
                                [t[0], new_id, t[2]]
                            } else {
                                [t[0], t[1], new_id]
                            };
                            mesh.tris.set(face, nt);
                            changed = true;
                            proof {
                                lemma_split_step(orig, t0, mesh.tris@, vc0, sources0, slot_of, face as int, c as int, key, p as int);
                                slot_of = slot_of.push((face as int, c as int));
                                assert forall|x: int, q: int, d: int|
                                    0 <= x < e && 0 <= d < 3 && #[trigger] on_excess_face(orig, nm@[x], q, incident_faces(orig, nm@[x])[q] as int, d)
                                        implies mesh.tris@[incident_faces(orig, nm@[x])[q] as int][d] != orig[incident_faces(orig, nm@[x])[q] as int][d] by {
                                    let f2 = incident_faces(orig, nm@[x])[q] as int;
                                    lemma_incident_faces_in_range(orig, nm@[x]);
                                    assert(0 <= f2 < t0.len());
                                    assert(t0[f2][d] != orig[f2][d]);
                                }
                                assert forall|q: int, d: int|
                                    2 <= q < p && 0 <= d < 3 && #[trigger] on_excess_face(orig, key, q, faces@[q] as int, d)
                                        implies mesh.tris@[faces@[q] as int][d] != orig[faces@[q] as int][d] by {
                                    let f2 = faces@[q] as int;
                                    assert(0 <= f2 < t0.len());
                                    assert(t0[f2][d] != orig[f2][d]);
                                }
                                assert forall|d: int|
                                    0 <= d < c + 1 && #[trigger] on_excess_face(orig, key, p as int, face as int, d)
                                        implies mesh.tris@[face as int][d] != orig[face as int][d] by {
                                    if d < c {
                                        assert(t0[face as int][d] != orig[face as int][d]);
                                    }
                                }
                            }
                        }
                        c = c + 1;
                    }
                }
            },
            None => {
                proof {
                    assert(false);
                }
            },
        }
    }
    proof {
        let tris = mesh.tris@;
        assert forall|i1: int, c1: int, i2: int, c2: int|
            0 <= i1 < orig.len() && 0 <= c1 < 3 && 0 <= i2 < orig.len() && 0 <= c2 < 3 && (i1
                != i2 || c1 != c2) && #[trigger] tris[i1][c1] != orig[i1][c1] && tris[i2][c2] != orig[i2][c2]
                implies tris[i1][c1] != #[trigger] tris[i2][c2] by {
            if tris[i2][c2] == tris[i1][c1] {
                assert(slot_of[tris[i1][c1] - vc0] == (i1, c1));
                assert(slot_of[tris[i2][c2] - vc0] == (i2, c2));
            }
        }
        if indices_below(orig, vc0) {
            assert forall|i1: int, c1: int, i2: int, c2: int|
                0 <= i1 < orig.len() && 0 <= c1 < 3 && 0 <= i2 < orig.len() && 0 <= c2 < 3 && (i1
                    != i2 || c1 != c2) && #[trigger] tris[i1][c1] >= vc0 implies tris[i1][c1]
                    != #[trigger] tris[i2][c2] by {
                assert(orig[i1][c1] < vc0);
                if tris[i2][c2] == tris[i1][c1] {
                    assert(orig[i2][c2] < vc0);
                    assert(slot_of[tris[i1][c1] - vc0] == (i1, c1));
                    assert(slot_of[tris[i2][c2] - vc0] == (i2, c2));
                }
            }
        }
        assert forall|v: int| vc0 <= v < vc0 + sources@.len() implies #[trigger] vertex_used(tris, v) by {
            let (i, c) = slot_of[v - vc0];
            assert(tris[i][c] == v);
        }
        assert forall|key: (u32, u32), p: int, c: int|
            0 <= c < 3 && #[trigger] on_excess_face(orig, key, p, incident_faces(orig, key)[p] as int, c)
                implies tris[incident_faces(orig, key)[p] as int][c] != orig[incident_faces(orig, key)[p] as int][c] by {
            assert(faces_on_sides(orig, 3 * orig.len(), key).len() > 0);
            assert(m.contains_key(key));
            assert(nonmanifold_edge_set(m).contains(key));
            assert(nm@.contains(key));
            let x = choose|x: int| 0 <= x < nm@.len() && nm@[x] == key;
            assert(on_excess_face(orig, nm@[x], p, incident_faces(orig, nm@[x])[p] as int, c));
        }
        if indices_below(orig, vc0) {
            lemma_split_clears_nonmanifold(orig, tris, vc0);
        }
        assert forall|i: int, c: int| 0 <= i < orig.len() && 0 <= c < 3 implies (tris[i][c] != orig[i][c]) == excess_slot(orig, i, c) by {
            if excess_slot(orig, i, c) {
                let (key, p) = choose|key: (u32, u32), p: int| #[trigger] on_excess_face(orig, key, p, i, c);
                assert(on_excess_face(orig, key, p, incident_faces(orig, key)[p] as int, c));
            }
        }
        lemma_changed_is_excess(orig, tris, 3 * orig.len());
        let key = nm@[0];
        assert(incident_faces(orig, key).len() > 2);
        lemma_incident_faces_in_range(orig, key);
        let s = lemma_listed_face_has_side(orig, key, 3 * orig.len(), 2);
        let f = s / 3;
        let k = s % 3;
        assert(side_at(orig, s) == tri_side(orig[f], k));
        assert(orig[f][k] == key.0 || orig[f][k] == key.1) by {
            lemma_side_slots(orig[f], k);
        }
        assert(on_excess_face(orig, key, 2, f, k));
        assert(excess_slot(orig, f, k));
        assert(s / 3 == f && s % 3 == k);
        lemma_excess_count_positive(orig, 3 * orig.len(), s);
    }
    (sources, StepOutcome { summary: String::from_str("separated non-manifold edges"), changed })
}

proof fn lemma_count_changed_zero(orig: Seq<[u32; 3]>, k: nat)
    ensures
        count_changed(orig, orig, k) == 0,
    decreases k,
{
    if k > 0 {
        lemma_count_changed_zero(orig, (k - 1) as nat);
    }
}

proof fn lemma_split_step(
    orig: Seq<[u32; 3]>,
    t0: Seq<[u32; 3]>,
    t1: Seq<[u32; 3]>,
    vc0: int,
    sources0: Seq<u32>,
    slot_of0: Seq<(int, int)>,
    face: int,
    c: int,
    key: (u32, u32),
    p: int,
)
    requires
        split_state(orig, t0, vc0, sources0, slot_of0),
        nonmanifold_ends_below(orig, vc0),
        0 <= face < orig.len(),
        0 <= c < 3,
        t0[face][c] == orig[face][c],
        on_excess_face(orig, key, p, face, c),
        t1.len() == t0.len(),
        t1[face][c] == vc0 + sources0.len(),
        forall|d: int| 0 <= d < 3 && d != c ==> t1[face][d] == t0[face][d],
        forall|i: int| 0 <= i < t0.len() && i != face ==> t1[i] == t0[i],
    ensures
        split_state(orig, t1, vc0, sources0.push(orig[face][c]), slot_of0.push((face, c))),
        forall|i: int, d: int|
            0 <= i < t0.len() && 0 <= d < 3 && #[trigger] t0[i][d] != orig[i][d] ==> t1[i][d] != orig[i][d],
        t1[face][c] != orig[face][c],
{
    let sources = sources0.push(orig[face][c]);
    let slot_of = slot_of0.push((face, c));
    assert(orig[face][c] < vc0);
    assert forall|i: int, d: int|
        0 <= i < t0.len() && 0 <= d < 3 && (i != face || d != c) implies #[trigger] t1[i][d] == t0[i][d] by {
        if i == face {
            assert(t1[face][d] == t0[face][d]);
        }
    }
    lemma_count_changed_step(orig, t0, t1, face, c, 3 * orig.len());
    assert forall|i: int, d: int|
        0 <= i < t1.len() && 0 <= d < 3 implies (#[trigger] t1[i][d] == orig[i][d] || (vc0
            <= t1[i][d] < vc0 + sources.len() && slot_of[t1[i][d] - vc0] == (i, d)
            && sources[t1[i][d] - vc0] == orig[i][d] && exists|key: (u32, u32), p: int|
            on_excess_face(orig, key, p, i, d))) by {
        if i == face && d == c {
            assert(slot_of[sources0.len() as int] == (face, c));
            assert(on_excess_face(orig, key, p, i, d));
        } else {
            assert(t1[i][d] == t0[i][d]);
            if t0[i][d] != orig[i][d] {
                assert(vc0 <= t0[i][d] < vc0 + sources0.len());
                assert(slot_of[t1[i][d] - vc0] == slot_of0[t0[i][d] - vc0]);
                assert(sources[t1[i][d] - vc0] == sources0[t0[i][d] - vc0]);
            }
        }
    }
    assert forall|k: int|
        0 <= k < sources.len() implies 0 <= (#[trigger] slot_of[k]).0 < t1.len() && 0 <= slot_of[k].1
            < 3 && t1[slot_of[k].0][slot_of[k].1] == vc0 + k by {
        if k < sources0.len() {
            assert(slot_of[k] == slot_of0[k]);
            let (i, d) = slot_of0[k];
            assert(t0[i][d] == vc0 + k);
            if i == face && d == c {
                assert(false);
            }
            assert(t1[i][d] == t0[i][d]);
        }
    }
    assert forall|i: int, d: int|
        0 <= i < t0.len() && 0 <= d < 3 && #[trigger] t0[i][d] != orig[i][d] implies t1[i][d] != orig[i][d] by {
        if i != face || d != c {
            assert(t1[i][d] == t0[i][d]);
        }
    }
}
/// Total number of faces listed over the first `k` components.
pub open spec fn listed_faces(comps: Seq<Vec<u32>>, k: nat) -> nat
    decreases k,
{
    if k == 0 {
        0
    } else {
        listed_faces(comps, (k - 1) as nat) + comps[k - 1]@.len()
    }
}

/// Total number of faces listed in the flagged components among the first `k`.
pub open spec fn flagged_faces(comps: Seq<Vec<u32>>, flags: Seq<bool>, k: nat) -> nat
    decreases k,
{
    if k == 0 {
        0
    } else {
        flagged_faces(comps, flags, (k - 1) as nat) + (if flags[k - 1] {
            comps[k - 1]@.len()
        } else {
            0
        })
    }
}

proof fn lemma_flagged_le_listed(comps: Seq<Vec<u32>>, flags: Seq<bool>, k: nat)
    ensures
        flagged_faces(comps, flags, k) <= listed_faces(comps, k),
    decreases k,
{
    if k > 0 {
        lemma_flagged_le_listed(comps, flags, (k - 1) as nat);
    }
}

proof fn lemma_listed_mono(comps: Seq<Vec<u32>>, j: nat, k: nat)
    requires
        j <= k,
    ensures
        listed_faces(comps, j) <= listed_faces(comps, k),
    decreases k,
{
    if j < k {
        lemma_listed_mono(comps, j, (k - 1) as nat);
    }
}

/// A face left out of the selection makes it shorter than the list.
proof fn lemma_selected_shorter(tris: Seq<[u32; 3]>, flags: Seq<bool>, k: nat, i: int)
    requires
        0 <= i < k,
        !flags[i],
    ensures
        selected_upto(tris, flags, k).len() < k,
    decreases k,
{
    lemma_selected_len(tris, flags, (k - 1) as nat);
    if i < k - 1 {
        lemma_selected_shorter(tris, flags, (k - 1) as nat, i);
    }
}

/// Flagged components that hold some face have one at a known position.
proof fn lemma_flagged_face_exists(comps: Seq<Vec<u32>>, flags: Seq<bool>, k: nat) -> (r: (int, int))
    requires
        k <= comps.len(),
        flagged_faces(comps, flags, k) > 0,
    ensures
        0 <= r.0 < k,
        flags[r.0],
        0 <= r.1 < comps[r.0]@.len(),
    decreases k,
{
    if flags[k - 1] && comps[k - 1]@.len() > 0 {
        ((k - 1) as int, 0)
    } else {
        lemma_flagged_face_exists(comps, flags, (k - 1) as nat)
    }
}

/// Face `f` belongs to one of the flagged components.
pub open spec fn in_flagged_component(comps: Seq<Vec<u32>>, flags: Seq<bool>, f: u32) -> bool {
    exists|ci: int| 0 <= ci < comps.len() && flags[ci] && #[trigger] comps[ci]@.contains(f)
}

/// Which triangles survive dropping the flagged components.
pub open spec fn outside_flagged_flags(tris: Seq<[u32; 3]>, comps: Seq<Vec<u32>>, flags: Seq<bool>) -> Seq<bool> {
    Seq::new(tris.len(), |i: int| !in_flagged_component(comps, flags, i as u32))
}

/// Drops the faces of the components flagged as specks. Nothing is dropped
/// when there is at most one component or when the flagged components hold
/// no face.
pub fn drop_specks(mesh: &mut MeshIndices, comps: &Vec<Vec<u32>>, speck: &Vec<bool>) -> (r: StepOutcome)
    requires
        speck@.len() == comps@.len(),
        forall|ci: int, p: int|
            0 <= ci < comps@.len() && 0 <= p < comps@[ci]@.len() ==> (#[trigger] comps@[ci]@[p])
                < old(mesh).tris@.len(),
        old(mesh).tris@.len() <= u32::MAX,
        listed_faces(comps@, comps@.len() as nat) <= usize::MAX,
    ensures
        final(mesh).vertex_count == old(mesh).vertex_count,
        ({
            let dropped = flagged_faces(comps@, speck@, comps@.len() as nat);
            if comps@.len() <= 1 || dropped == 0 {
                &&& final(mesh).tris@ == old(mesh).tris@
                &&& r.summary@ == "no specks"@
                &&& !r.changed
            } else {
                &&& final(mesh).tris@ == selected(old(mesh).tris@, outside_flagged_flags(old(mesh).tris@, comps@, speck@))
                &&& r.summary@ == "dropped "@ + decimal(dropped) + " speck faces"@
                &&& r.changed
            }
        }),
        r.changed == (final(mesh).tris@.len() < old(mesh).tris@.len()),
{
    proof {
        reveal_strlit("no specks");
        reveal_strlit("dropped ");
        reveal_strlit(" speck faces");
    }
    if comps.len() <= 1 {
        return StepOutcome { summary: String::from_str("no specks"), changed: false };
    }
    let ghost tris = mesh.tris@;
    let n = mesh.tris.len();
    let mut keep: Vec<bool> = Vec::new();
    for f in 0..n
        invariant
            keep@.len() == f,
            forall|x: int| 0 <= x < f ==> #[trigger] keep@[x],
    {
        keep.push(true);
    }
    let mut dropped: usize = 0;
    for ci in 0..comps.len()
        invariant
            n == tris.len(),
            n <= u32::MAX,
            tris == mesh.tris@,
            keep@.len() == n,
            speck@.len() == comps@.len(),
            forall|cj: int, p: int|
                0 <= cj < comps@.len() && 0 <= p < comps@[cj]@.len() ==> (#[trigger] comps@[cj]@[p])
                    < n,
            listed_faces(comps@, comps@.len() as nat) <= usize::MAX,
            dropped == flagged_faces(comps@, speck@, ci as nat),
            forall|x: int|
                0 <= x < n ==> (#[trigger] keep@[x] <==> !(exists|cj: int|
                    0 <= cj < ci && speck@[cj] && #[trigger] comps@[cj]@.contains(x as u32))),
    {
        if speck[ci] {
            let comp = &comps[ci];
            proof {
                lemma_flagged_le_listed(comps@, speck@, ci as nat);
                lemma_listed_mono(comps@, (ci + 1) as nat, comps@.len() as nat);
            }
            let ghost keep0 = keep@;
            for p in 0..comp.len()
                invariant
                    n == tris.len(),
                    n <= u32::MAX,
                    keep@.len() == n,
                    ci < comps@.len(),
                    comp@ == comps@[ci as int]@,
                    speck@[ci as int],
                    forall|q: int| 0 <= q < comp@.len() ==> (#[trigger] comp@[q]) < n,
                    flagged_faces(comps@, speck@, ci as nat) + comp@.len() <= usize::MAX,
                    keep0.len() == n,
                    dropped == flagged_faces(comps@, speck@, ci as nat) + p,
                    forall|x: int|
                        0 <= x < n ==> (#[trigger] keep@[x] <==> (keep0[x] && !(exists|q: int|
                            0 <= q < p && comp@[q] == x as u32))),
            {
                let f = comp[p] as usize;
                keep.set(f, false);
                dropped = dropped + 1;
                proof {
                    assert forall|x: int|
                        0 <= x < n implies (#[trigger] keep@[x] <==> (keep0[x] && !(exists|q: int|
                            0 <= q < p + 1 && comp@[q] == x as u32))) by {
                        if x == f as int {
                            assert(comp@[p as int] == x as u32);
                        } else {
                            if exists|q: int| 0 <= q < p + 1 && comp@[q] == x as u32 {
                                let q = choose|q: int| 0 <= q < p + 1 && comp@[q] == x as u32;
                                assert(q != p);
                            }
                        }
                    }
                }
            }
            proof {
                assert forall|x: int|
                    0 <= x < n implies (#[trigger] keep@[x] <==> !(exists|cj: int|
                        0 <= cj < ci + 1 && speck@[cj] && #[trigger] comps@[cj]@.contains(x as u32))) by {
                    if comps@[ci as int]@.contains(x as u32) {
                        let q = choose|q: int| 0 <= q < comp@.len() && comp@[q] == x as u32;
                        assert(comp@[q] == x as u32);
                    }
                    if exists|q: int| 0 <= q < comp@.len() && comp@[q] == x as u32 {
                        assert(comps@[ci as int]@.contains(x as u32));
                    }
                    if exists|cj: int| 0 <= cj < ci + 1 && speck@[cj] && #[trigger] comps@[cj]@.contains(x as u32) {
                        let cj = choose|cj: int| 0 <= cj < ci + 1 && speck@[cj] && #[trigger] comps@[cj]@.contains(x as u32);
                        if cj < ci {
                            assert(!keep0[x]);
                        }
                    }
                }
            }
        } else {
            proof {
                assert forall|x: int|
                    0 <= x < n implies (#[trigger] keep@[x] <==> !(exists|cj: int|
                        0 <= cj < ci + 1 && speck@[cj] && #[trigger] comps@[cj]@.contains(x as u32))) by {
                    if exists|cj: int| 0 <= cj < ci + 1 && speck@[cj] && #[trigger] comps@[cj]@.contains(x as u32) {
                        let cj = choose|cj: int| 0 <= cj < ci + 1 && speck@[cj] && #[trigger] comps@[cj]@.contains(x as u32);
                        assert(cj < ci);
                    }
                }
            }
        }
    }
    if dropped == 0 {
        return StepOutcome { summary: String::from_str("no specks"), changed: false };
    }
    let ghost flags = outside_flagged_flags(tris, comps@, speck@);
    let mut new_tris: Vec<[u32; 3]> = Vec::new();
    for i in 0..n
        invariant
            n == tris.len(),
            n <= u32::MAX,
            tris == mesh.tris@,
            keep@.len() == n,
            flags == outside_flagged_flags(tris, comps@, speck@),
            forall|x: int|
                0 <= x < n ==> (#[trigger] keep@[x] <==> !(exists|cj: int|
                    0 <= cj < comps@.len() && speck@[cj] && #[trigger] comps@[cj]@.contains(x as u32))),
            new_tris@ == selected_upto(tris, flags, i as nat),
    {
        proof {
            assert(keep@[i as int] == flags[i as int]);
        }
        if keep[i] {
            new_tris.push(mesh.tris[i]);
        }
    }
    proof {
        let (ci, p) = lemma_flagged_face_exists(comps@, speck@, comps@.len() as nat);
        let f = comps@[ci]@[p];
        assert(comps@[ci]@.contains(f));
        assert(in_flagged_component(comps@, speck@, f));
        assert(!flags[f as int]);
        lemma_selected_shorter(tris, flags, n as nat, f as int);
    }
    mesh.tris = new_tris;
    let mut summary = String::from_str("dropped ");
    push_decimal(&mut summary, dropped as u64);
    summary.append(" speck faces");
    StepOutcome { summary, changed: true }
}

} // verus!

verus! {

/// Flipping the winding of a mesh twice gives back the mesh it started
/// from: `after_one` is `start` flipped, `after_two` is `after_one` flipped.
pub proof fn lemma_flip_winding_twice(start: Seq<[u32; 3]>, after_one: Seq<[u32; 3]>, after_two: Seq<[u32; 3]>)
    requires
        after_one.len() == start.len(),
        forall|i: int| 0 <= i < start.len() ==> #[trigger] after_one[i] == flipped(start[i]),
        after_two.len() == after_one.len(),
        forall|i: int| 0 <= i < after_one.len() ==> #[trigger] after_two[i] == flipped(after_one[i]),
    ensures
        after_two == start,
{
    assert forall|i: int| 0 <= i < start.len() implies after_two[i] == start[i] by {
        assert(after_two[i] =~= start[i]);
    }
    assert(after_two =~= start);
}

/// No two faces of `r` use the same vertex set.
pub open spec fn keys_distinct(r: Seq<[u32; 3]>) -> bool {
    forall|i: int, j: int| 0 <= i < j < r.len() ==> sorted_key(#[trigger] r[i]) != sorted_key(#[trigger] r[j])
}

/// Every face of `r` is one of the first `k` faces of `tris`.
#[verifier::opaque]
spec fn drawn_from(r: Seq<[u32; 3]>, tris: Seq<[u32; 3]>, k: int) -> bool {
    forall|i: int| #![trigger r[i]] 0 <= i < r.len() ==> exists|j: int| 0 <= j < k && #[trigger] tris[j] == r[i]
}

/// Every vertex set of the first `k` faces of `tris` is used by a face of `r`.
pub open spec fn covers_keys(r: Seq<[u32; 3]>, tris: Seq<[u32; 3]>, k: int) -> bool {
    forall|j: int|
        #![trigger tris[j]]
        0 <= j < k ==> exists|i: int| 0 <= i < r.len() && sorted_key(r[i]) == sorted_key(tris[j])
}

proof fn lemma_dedup_drawn(tris: Seq<[u32; 3]>, k: nat)
    requires
        k <= tris.len(),
    ensures
        drawn_from(selected_upto(tris, unique_face_flags(tris), k), tris, k as int),
    decreases k,
{
    reveal(drawn_from);
    if k > 0 {
        let flags = unique_face_flags(tris);
        let prev = selected_upto(tris, flags, (k - 1) as nat);
        let r = selected_upto(tris, flags, k);
        lemma_dedup_drawn(tris, (k - 1) as nat);
        assert forall|i: int| #![trigger r[i]] 0 <= i < r.len() implies exists|j: int|
            0 <= j < k && #[trigger] tris[j] == r[i] by {
            if i < prev.len() {
                assert(r[i] == prev[i]);
                let w = choose|w: int| 0 <= w < k - 1 && #[trigger] tris[w] == prev[i];
                assert(tris[w] == r[i]);
            } else {
                assert(tris[k - 1] == r[i]);
            }
        }
    }
}

proof fn lemma_dedup_distinct(tris: Seq<[u32; 3]>, k: nat)
    requires
        k <= tris.len(),
    ensures
        keys_distinct(selected_upto(tris, unique_face_flags(tris), k)),
    decreases k,
{
    if k > 0 {
        let flags = unique_face_flags(tris);
        let prev = selected_upto(tris, flags, (k - 1) as nat);
        let r = selected_upto(tris, flags, k);
        lemma_dedup_distinct(tris, (k - 1) as nat);
        if flags[k - 1] {
            lemma_dedup_drawn(tris, (k - 1) as nat);
            reveal(drawn_from);
            assert forall|i: int, j: int| 0 <= i < j < r.len() implies sorted_key(#[trigger] r[i])
                != sorted_key(#[trigger] r[j]) by {
                assert(r[i] == prev[i]);
                if j == prev.len() {
                    let w = choose|w: int| 0 <= w < k - 1 && #[trigger] tris[w] == prev[i];
                    assert(first_of_its_kind(tris, k - 1));
                    assert(sorted_key(tris[w]) != sorted_key(tris[k - 1]));
                } else {
                    assert(r[j] == prev[j]);
                }
            }
        }
    }
}

proof fn lemma_dedup_covers(tris: Seq<[u32; 3]>, k: nat)
    requires
        k <= tris.len(),
    ensures
        covers_keys(selected_upto(tris, unique_face_flags(tris), k), tris, k as int),
    decreases k,
{
    if k > 0 {
        let flags = unique_face_flags(tris);
        let prev = selected_upto(tris, flags, (k - 1) as nat);
        let r = selected_upto(tris, flags, k);
        lemma_dedup_covers(tris, (k - 1) as nat);
        if flags[k - 1] {
            assert forall|j: int| #![trigger tris[j]] 0 <= j < k implies exists|i: int|
                0 <= i < r.len() && sorted_key(r[i]) == sorted_key(tris[j]) by {
                if j < k - 1 {
                    let i = choose|i: int| 0 <= i < prev.len() && sorted_key(prev[i]) == sorted_key(tris[j]);
                    assert(r[i] == prev[i]);
                } else {
                    assert(r[prev.len() as int] == tris[k - 1]);
                }
            }
        } else {
            assert(!first_of_its_kind(tris, k - 1));
            let w = choose|w: int| 0 <= w < k - 1 && #[trigger] sorted_key(tris[w]) == sorted_key(tris[k - 1]);
            assert forall|j: int| #![trigger tris[j]] 0 <= j < k implies exists|i: int|
                0 <= i < r.len() && sorted_key(r[i]) == sorted_key(tris[j]) by {
                if j < k - 1 {
                    let i = choose|i: int| 0 <= i < prev.len() && sorted_key(prev[i]) == sorted_key(tris[j]);
                    assert(sorted_key(r[i]) == sorted_key(tris[j]));
                } else {
                    assert(tris[w] == tris[w]);
                    let i = choose|i: int| 0 <= i < prev.len() && sorted_key(prev[i]) == sorted_key(tris[w]);
                    assert(sorted_key(r[i]) == sorted_key(tris[j]));
                }
            }
        }
    }
}

proof fn lemma_selected_all(tris: Seq<[u32; 3]>, flags: Seq<bool>, k: nat)
    requires
        k <= tris.len(),
        forall|i: int| 0 <= i < k ==> #[trigger] flags[i],
    ensures
        selected_upto(tris, flags, k) == tris.take(k as int),
    decreases k,
{
    if k > 0 {
        lemma_selected_all(tris, flags, (k - 1) as nat);
        assert(tris.take(k as int) =~= tris.take(k - 1).push(tris[k - 1]));
    }
}

/// After the duplicate-face step no two faces hold the same three indices,
/// in whatever order: a face and its copy with the winding reversed, or
/// started at another corner, do not both survive.
pub proof fn lemma_no_reordered_duplicates_survive(tris: Seq<[u32; 3]>)
    ensures
        forall|i: int, j: int|
            0 <= i < j < selected(tris, unique_face_flags(tris)).len() ==> !rearranges(
                #[trigger] selected(tris, unique_face_flags(tris))[i],
                #[trigger] selected(tris, unique_face_flags(tris))[j],
            ),
{
    let r = selected(tris, unique_face_flags(tris));
    lemma_duplicate_faces_removed(tris);
    assert forall|i: int, j: int| 0 <= i < j < r.len() implies !rearranges(#[trigger] r[i], #[trigger] r[j]) by {
        if rearranges(r[i], r[j]) {
            lemma_sorted_key_ignores_order(r[i], r[j]);
            assert(sorted_key(r[i]) != sorted_key(r[j]));
        }
    }
}

/// After the duplicate-face step no two faces use the same vertex set, every
/// vertex set of the input is still used by some face, and running the step
/// again keeps every face.
pub proof fn lemma_duplicate_faces_removed(tris: Seq<[u32; 3]>)
    ensures
        keys_distinct(selected(tris, unique_face_flags(tris))),
        covers_keys(selected(tris, unique_face_flags(tris)), tris, tris.len() as int),
        selected(selected(tris, unique_face_flags(tris)), unique_face_flags(
            selected(tris, unique_face_flags(tris)),
        )) == selected(tris, unique_face_flags(tris)),
{
    lemma_dedup_distinct(tris, tris.len());
    lemma_dedup_covers(tris, tris.len());
    let r = selected(tris, unique_face_flags(tris));
    let flags = unique_face_flags(r);
    assert forall|i: int| 0 <= i < r.len() implies #[trigger] flags[i] by {
        assert forall|j: int| 0 <= j < i implies #[trigger] sorted_key(r[j]) != sorted_key(r[i]) by {
            assert(sorted_key(r[j]) != sorted_key(r[i]));
        }
        assert(first_of_its_kind(r, i));
    }
    lemma_selected_all(r, flags, r.len());
    assert(r.take(r.len() as int) =~= r);
}

} // verus!

verus! {

proof fn lemma_side_position(tris: Seq<[u32; 3]>, key: (u32, u32), s: int, n: nat)
    requires
        0 <= s < n,
        n <= 3 * tris.len(),
        tris.len() <= u32::MAX,
        spec_edge_key(side_at(tris, s).0, side_at(tris, s).1) == key,
    ensures
        faces_on_sides(tris, s as nat, key).len() < faces_on_sides(tris, n, key).len(),
        faces_on_sides(tris, n, key)[faces_on_sides(tris, s as nat, key).len() as int] == s / 3,
    decreases n,
{
    if n - 1 > s {
        lemma_side_position(tris, key, s, (n - 1) as nat);
    } else {
        assert(faces_on_sides(tris, (s + 1) as nat, key) == faces_on_sides(tris, s as nat, key).push((s / 3) as u32));
    }
}

proof fn lemma_sides_within_two(tris: Seq<[u32; 3]>, key: (u32, u32), n: nat, s1: int, s2: int)
    requires
        n <= 3 * tris.len(),
        forall|s: int|
            0 <= s < n && spec_edge_key(#[trigger] side_at(tris, s).0, side_at(tris, s).1) == key ==> s == s1 || s == s2,
    ensures
        faces_on_sides(tris, n, key).len() <= (if s1 < n { 1int } else { 0int }) + (if s2 < n && s2 != s1 {
            1int
        } else {
            0int
        }),
    decreases n,
{
    if n > 0 {
        lemma_sides_within_two(tris, key, (n - 1) as nat, s1, s2);
        let side = side_at(tris, n - 1);
        if spec_edge_key(side.0, side.1) == key {
            assert(n - 1 == s1 || n - 1 == s2);
        }
    }
}

proof fn lemma_sides_kept(orig: Seq<[u32; 3]>, tris: Seq<[u32; 3]>, key: (u32, u32), n: nat)
    requires
        n <= 3 * orig.len(),
        tris.len() == orig.len(),
        forall|s: int|
            0 <= s < n && spec_edge_key(#[trigger] side_at(tris, s).0, side_at(tris, s).1) == key ==> spec_edge_key(
                side_at(orig, s).0,
                side_at(orig, s).1,
            ) == key && faces_on_sides(orig, s as nat, key).len() < 2,
    ensures
        faces_on_sides(tris, n, key).len() <= faces_on_sides(orig, n, key).len(),
        faces_on_sides(tris, n, key).len() <= 2,
    decreases n,
{
    if n > 0 {
        lemma_sides_kept(orig, tris, key, (n - 1) as nat);
    }
}

/// The value in slot `c` of side `k` of a triangle: its start for `c == 0`,
/// its end otherwise.
proof fn lemma_side_slots(t: [u32; 3], k: int)
    requires
        0 <= k < 3,
    ensures
        tri_side(t, k).0 == t[k],
        tri_side(t, k).1 == t[(k + 1) % 3],
{
}

/// After the non-manifold split no edge has more than two incident faces.
proof fn lemma_split_clears_nonmanifold(orig: Seq<[u32; 3]>, tris: Seq<[u32; 3]>, vc0: int)
    requires
        orig.len() <= u32::MAX,
        tris.len() == orig.len(),
        indices_below(orig, vc0),
        forall|i: int, c: int|
            0 <= i < orig.len() && 0 <= c < 3 ==> (#[trigger] tris[i][c] == orig[i][c] || tris[i][c] >= vc0),
        forall|i1: int, c1: int, i2: int, c2: int|
            0 <= i1 < orig.len() && 0 <= c1 < 3 && 0 <= i2 < orig.len() && 0 <= c2 < 3 && (i1
                != i2 || c1 != c2) && #[trigger] tris[i1][c1] >= vc0 ==> tris[i1][c1]
                != #[trigger] tris[i2][c2],
        forall|key: (u32, u32), p: int, c: int|
            0 <= c < 3 && #[trigger] on_excess_face(orig, key, p, incident_faces(orig, key)[p] as int, c)
                ==> tris[incident_faces(orig, key)[p] as int][c] != orig[incident_faces(orig, key)[p] as int][c],
    ensures
        !has_nonmanifold_edge(tris),
{
    let n = 3 * tris.len();
    assert forall|key: (u32, u32)| #[trigger] incident_faces(tris, key).len() <= 2 by {
        if key.0 >= vc0 || key.1 >= vc0 {
            let v = if key.0 >= vc0 { key.0 } else { key.1 };
            if exists|s: int| 0 <= s < n && spec_edge_key(#[trigger] side_at(tris, s).0, side_at(tris, s).1) == key {
                let s0 = choose|s: int| 0 <= s < n && spec_edge_key(#[trigger] side_at(tris, s).0, side_at(tris, s).1) == key;
                let f0 = s0 / 3;
                let k0 = s0 % 3;
                lemma_side_slots(tris[f0], k0);
                let c0 = if tris[f0][k0] == v { k0 } else { (k0 + 1) % 3 };
                assert(tris[f0][c0] == v);
                let s1 = 3 * f0 + c0;
                let s2 = 3 * f0 + (c0 + 2) % 3;
                assert forall|s: int|
                    0 <= s < n && spec_edge_key(#[trigger] side_at(tris, s).0, side_at(tris, s).1) == key implies s == s1 || s == s2 by {
                    let f = s / 3;
                    let k = s % 3;
                    lemma_side_slots(tris[f], k);
                    let c = if tris[f][k] == v { k } else { (k + 1) % 3 };
                    assert(tris[f][c] == v);
                    assert(f == f0 && c == c0);
                }
                lemma_sides_within_two(tris, key, n as nat, s1, s2);
            } else {
                lemma_sides_within_two(tris, key, n as nat, -1, -1);
            }
        } else {
            assert forall|s: int|
                0 <= s < n && spec_edge_key(#[trigger] side_at(tris, s).0, side_at(tris, s).1) == key implies spec_edge_key(
                    side_at(orig, s).0,
                    side_at(orig, s).1,
                ) == key && faces_on_sides(orig, s as nat, key).len() < 2 by {
                let f = s / 3;
                let k = s % 3;
                lemma_side_slots(tris[f], k);
                lemma_side_slots(orig[f], k);
                let k1 = (k + 1) % 3;
                assert(tris[f][k] == orig[f][k]);
                assert(tris[f][k1] == orig[f][k1]);
                assert(side_at(orig, s) == side_at(tris, s));
                let p = faces_on_sides(orig, s as nat, key).len() as int;
                if p >= 2 {
                    lemma_side_position(orig, key, s, n as nat);
                    assert(incident_faces(orig, key)[p] == f);
                    assert(on_excess_face(orig, key, p, incident_faces(orig, key)[p] as int, k));
                }
            }
            lemma_sides_kept(orig, tris, key, n as nat);
        }
    }
}

} // verus!

verus! {

/// Boundary loops with more vertices than this are left open.
pub const MAX_HOLE_LOOP_VERTS: usize = 1000;

/// Whether a boundary loop of `loop_len` vertices is filled: it needs at
/// least three vertices and at most [`MAX_HOLE_LOOP_VERTS`].
pub fn hole_fillable(loop_len: usize) -> (r: bool)
    ensures
        r == (3 <= loop_len && loop_len <= MAX_HOLE_LOOP_VERTS),
{
    loop_len >= 3 && loop_len <= MAX_HOLE_LOOP_VERTS
}

/// The triangles of the patches, concatenated in order.
pub open spec fn patches_flat(patches: Seq<Vec<[u32; 3]>>) -> Seq<[u32; 3]>
    decreases patches.len(),
{
    if patches.len() == 0 {
        Seq::empty()
    } else {
        patches_flat(patches.drop_last()) + patches.last()@
    }
}

/// Appends the triangles that close the holes (one patch per filled loop,
/// in order) and reports how many were added.
pub fn apply_hole_patches(mesh: &mut MeshIndices, patches: &Vec<Vec<[u32; 3]>>) -> (r: StepOutcome)
    ensures
        final(mesh).vertex_count == old(mesh).vertex_count,
        final(mesh).tris@ == old(mesh).tris@ + patches_flat(patches@),
        r.summary@ == "filled holes with "@ + decimal(patches_flat(patches@).len()) + " triangles"@,
        r.changed == (patches_flat(patches@).len() > 0),
{
    let ghost start = mesh.tris@;
    let before = mesh.tris.len();
    let mut pi: usize = 0;
    while pi < patches.len()
        invariant
            pi <= patches@.len(),
            mesh.vertex_count == old(mesh).vertex_count,
            start == old(mesh).tris@,
            before == start.len(),
            mesh.tris@ == start + patches_flat(patches@.subrange(0, pi as int)),
        decreases patches@.len() - pi,
    {
        let patch = &patches[pi];
        let ghost mid = mesh.tris@;
        let mut k: usize = 0;
        while k < patch.len()
            invariant
                k <= patch@.len(),
                mesh.vertex_count == old(mesh).vertex_count,
                mesh.tris@ == mid + patch@.subrange(0, k as int),
            decreases patch@.len() - k,
        {
            mesh.tris.push(patch[k]);
            proof {
                assert(patch@.subrange(0, k + 1) =~= patch@.subrange(0, k as int).push(patch@[k as int]));
            }
            k = k + 1;
        }
        proof {
            assert(patch@.subrange(0, patch@.len() as int) =~= patch@);
            assert(patches@.subrange(0, pi + 1).drop_last() =~= patches@.subrange(0, pi as int));
            assert(mesh.tris@ =~= start + patches_flat(patches@.subrange(0, pi + 1)));
        }
        pi = pi + 1;
    }
    proof {
        assert(patches@.subrange(0, patches@.len() as int) =~= patches@);
    }
    let added = mesh.tris.len() - before;
    let mut summary = String::from_str("filled holes with ");
    push_decimal(&mut summary, added as u64);
    summary.append(" triangles");
    proof {
        reveal_strlit("filled holes with ");
        reveal_strlit(" triangles");
    }
    StepOutcome { summary, changed: added > 0 }
}

} // verus!

verus! {

/// Concatenating two link paths whose meeting faces are linked gives a link
/// path.
proof fn lemma_link_paths_join(tris: Seq<[u32; 3]>, a: Seq<u32>, b: Seq<u32>)
    requires
        is_link_path(tris, a),
        is_link_path(tris, b),
        two_face_linked(tris, a[a.len() - 1], b[0]),
    ensures
        is_link_path(tris, a + b),
        (a + b)[0] == a[0],
        (a + b)[(a + b).len() - 1] == b[b.len() - 1],
{
    let c = a + b;
    assert forall|k: int| 0 <= k < c.len() - 1 implies two_face_linked(tris, #[trigger] c[k], c[k + 1]) by {
        if k < a.len() - 1 {
            assert(c[k] == a[k] && c[k + 1] == a[k + 1]);
        } else if k == a.len() - 1 {
            assert(c[k] == a[k] && c[k + 1] == b[0]);
        } else {
            assert(c[k] == b[k - a.len()] && c[k + 1] == b[k - a.len() + 1]);
        }
    }
}

/// Entry `p` of the faces listed on edge `key` among the first `n` sides
/// comes from a side of that face lying on `key`.
proof fn lemma_listed_face_has_side(tris: Seq<[u32; 3]>, key: (u32, u32), n: nat, p: int) -> (s: int)
    requires
        n <= 3 * tris.len(),
        tris.len() <= u32::MAX,
        0 <= p < faces_on_sides(tris, n, key).len(),
    ensures
        0 <= s < n,
        s / 3 == faces_on_sides(tris, n, key)[p] as int,
        spec_edge_key(side_at(tris, s).0, side_at(tris, s).1) == key,
    decreases n,
{
    let prev = faces_on_sides(tris, (n - 1) as nat, key);
    if p < prev.len() {
        let s = lemma_listed_face_has_side(tris, key, (n - 1) as nat, p);
        s
    } else {
        (n - 1) as int
    }
}

/// Listing more sides never shortens the list of faces on an edge.
proof fn lemma_listed_faces_grow(tris: Seq<[u32; 3]>, key: (u32, u32), s: nat, n: nat)
    requires
        s <= n,
    ensures
        faces_on_sides(tris, s, key).len() <= faces_on_sides(tris, n, key).len(),
    decreases n,
{
    if n > s {
        lemma_listed_faces_grow(tris, key, s, (n - 1) as nat);
    }
}

/// Three sides `a < b < c` on edge `key` put at least three entries in its
/// list of faces.
proof fn lemma_three_sides_ordered(tris: Seq<[u32; 3]>, key: (u32, u32), a: int, b: int, c: int)
    requires
        tris.len() <= u32::MAX,
        0 <= a < b < c < 3 * tris.len(),
        spec_edge_key(side_at(tris, a).0, side_at(tris, a).1) == key,
        spec_edge_key(side_at(tris, b).0, side_at(tris, b).1) == key,
        spec_edge_key(side_at(tris, c).0, side_at(tris, c).1) == key,
    ensures
        incident_faces(tris, key).len() >= 3,
{
    lemma_side_position(tris, key, a, (a + 1) as nat);
    lemma_listed_faces_grow(tris, key, (a + 1) as nat, b as nat);
    lemma_side_position(tris, key, b, (b + 1) as nat);
    lemma_listed_faces_grow(tris, key, (b + 1) as nat, c as nat);
    lemma_side_position(tris, key, c, 3 * tris.len());
}

/// Three different sides on edge `key` put at least three entries in its
/// list of faces.
proof fn lemma_three_sides(tris: Seq<[u32; 3]>, key: (u32, u32), a: int, b: int, c: int)
    requires
        tris.len() <= u32::MAX,
        0 <= a < 3 * tris.len(),
        0 <= b < 3 * tris.len(),
        0 <= c < 3 * tris.len(),
        a != b && b != c && a != c,
        spec_edge_key(side_at(tris, a).0, side_at(tris, a).1) == key,
        spec_edge_key(side_at(tris, b).0, side_at(tris, b).1) == key,
        spec_edge_key(side_at(tris, c).0, side_at(tris, c).1) == key,
    ensures
        incident_faces(tris, key).len() >= 3,
{
    if a < b && b < c {
        lemma_three_sides_ordered(tris, key, a, b, c);
    } else if a < c && c < b {
        lemma_three_sides_ordered(tris, key, a, c, b);
    } else if b < a && a < c {
        lemma_three_sides_ordered(tris, key, b, a, c);
    } else if b < c && c < a {
        lemma_three_sides_ordered(tris, key, b, c, a);
    } else if c < a && a < b {
        lemma_three_sides_ordered(tris, key, c, a, b);
    } else {
        lemma_three_sides_ordered(tris, key, c, b, a);
    }
}

/// A triangle with exactly one side on edge `key` (whose ends differ)
/// walks it the other way once reversed.
proof fn lemma_flip_reverses_walk(t: [u32; 3], key: (u32, u32), k: int)
    requires
        0 <= k < 3,
        key.0 != key.1,
        spec_edge_key(tri_side(t, k).0, tri_side(t, k).1) == key,
        forall|j: int|
            0 <= j < 3 && j != k ==> spec_edge_key(#[trigger] tri_side(t, j).0, tri_side(t, j).1) != key,
    ensures
        walks_edge_forward(flipped(t), key.0, key.1) == !walks_edge_forward(t, key.0, key.1),
{
    let u = flipped(t);
    assert(u[0] == t[0] && u[1] == t[2] && u[2] == t[1]);
    assert(tri_side(t, 0) == (t[0], t[1]));
    assert(tri_side(t, 1) == (t[1], t[2]));
    assert(tri_side(t, 2) == (t[2], t[0]));
    assert(k == 0 || spec_edge_key(tri_side(t, 0).0, tri_side(t, 0).1) != key);
    assert(k == 1 || spec_edge_key(tri_side(t, 1).0, tri_side(t, 1).1) != key);
    assert(k == 2 || spec_edge_key(tri_side(t, 2).0, tri_side(t, 2).1) != key);
}

/// On a two-face edge of `tris` that `sigma` orients, the two faces differ,
/// and reversing either face reverses the way it walks the edge.
proof fn lemma_oriented_pair_facts(tris: Seq<[u32; 3]>, sigma: Seq<bool>, key: (u32, u32))
    requires
        tris.len() <= u32::MAX,
        orients(tris, sigma),
        incident_faces(tris, key).len() == 2,
    ensures
        incident_faces(tris, key)[0] != incident_faces(tris, key)[1],
        incident_faces(tris, key)[0] < tris.len(),
        incident_faces(tris, key)[1] < tris.len(),
        walks_edge_forward(flipped(tris[incident_faces(tris, key)[0] as int]), key.0, key.1)
            == !walks_edge_forward(tris[incident_faces(tris, key)[0] as int], key.0, key.1),
        walks_edge_forward(flipped(tris[incident_faces(tris, key)[1] as int]), key.0, key.1)
            == !walks_edge_forward(tris[incident_faces(tris, key)[1] as int], key.0, key.1),
{
    let inc = incident_faces(tris, key);
    lemma_incident_faces_in_range(tris, key);
    let n3 = 3 * tris.len();
    let s0 = lemma_listed_face_has_side(tris, key, n3, 0);
    let s1 = lemma_listed_face_has_side(tris, key, n3, 1);
    let f0 = inc[0] as int;
    let f1 = inc[1] as int;
    let t0 = oriented(tris[f0], sigma[f0]);
    let t1 = oriented(tris[f1], sigma[f1]);
    assert(walks_edge_forward(t0, key.0, key.1) != walks_edge_forward(t1, key.0, key.1));
    assert(f0 != f1);
    assert(key.0 != key.1);
    assert forall|j: int| 0 <= j < 3 && j != s0 % 3 implies spec_edge_key(
        #[trigger] tri_side(tris[f0], j).0,
        tri_side(tris[f0], j).1,
    ) != key by {
        let s = 3 * f0 + j;
        assert(side_at(tris, s) == tri_side(tris[f0], j));
        if spec_edge_key(tri_side(tris[f0], j).0, tri_side(tris[f0], j).1) == key {
            lemma_three_sides(tris, key, s0, s1, s);
        }
    }
    assert(side_at(tris, s0) == tri_side(tris[f0], s0 % 3));
    lemma_flip_reverses_walk(tris[f0], key, s0 % 3);
    assert forall|j: int| 0 <= j < 3 && j != s1 % 3 implies spec_edge_key(
        #[trigger] tri_side(tris[f1], j).0,
        tri_side(tris[f1], j).1,
    ) != key by {
        let s = 3 * f1 + j;
        assert(side_at(tris, s) == tri_side(tris[f1], j));
        if spec_edge_key(tri_side(tris[f1], j).0, tri_side(tris[f1], j).1) == key {
            lemma_three_sides(tris, key, s0, s1, s);
        }
    }
    assert(side_at(tris, s1) == tri_side(tris[f1], s1 % 3));
    lemma_flip_reverses_walk(tris[f1], key, s1 % 3);
}

/// From face `g`, parents lead to a root of the forest: `paths.0` runs from
/// the root to `g` and `paths.1` back, both link paths, and `g` and the
/// root agree on whether they were reversed as `sigma` would reverse them.
proof fn lemma_chain_to_root(
    orig: Seq<[u32; 3]>,
    result: Seq<[u32; 3]>,
    parent: Seq<int>,
    key_of: Seq<(u32, u32)>,
    depth: Seq<nat>,
    flips: Seq<bool>,
    sigma: Seq<bool>,
    g: int,
) -> (paths: (Seq<u32>, Seq<u32>))
    requires
        orig.len() <= u32::MAX,
        oriented_along_forest(orig, result, parent, key_of, depth, flips),
        orients(orig, sigma),
        0 <= g < orig.len(),
    ensures
        is_link_path(orig, paths.0),
        is_link_path(orig, paths.1),
        paths.0[paths.0.len() - 1] == g,
        paths.1[0] == g,
        paths.1[paths.1.len() - 1] == paths.0[0],
        paths.0[0] < orig.len(),
        parent[paths.0[0] as int] < 0,
        (flips[paths.0[0] as int] != sigma[paths.0[0] as int]) == (flips[g] != sigma[g]),
    decreases depth[g],
{
    assert(forest_at(orig, result, parent, key_of, depth, flips, g));
    if parent[g] < 0 {
        let one = seq![g as u32];
        assert(is_link_path(orig, one));
        (one, one)
    } else {
        let p = parent[g];
        let key = key_of[g];
        let (d, u) = lemma_chain_to_root(orig, result, parent, key_of, depth, flips, sigma, p);
        lemma_oriented_pair_facts(orig, sigma, key);
        assert(two_face_pair(orig, key, p as u32, g as u32));
        assert(two_face_pair(orig, key, g as u32, p as u32));
        let one = seq![g as u32];
        assert(is_link_path(orig, one));
        lemma_link_paths_join(orig, d, one);
        lemma_link_paths_join(orig, one, u);
        (d + one, one + u)
    }
}

/// Re-orienting along a forest a mesh that some choice of reversals
/// orients makes every two-face edge walked in opposite directions.
proof fn lemma_forest_makes_edges_agree(
    orig: Seq<[u32; 3]>,
    result: Seq<[u32; 3]>,
    parent: Seq<int>,
    key_of: Seq<(u32, u32)>,
    depth: Seq<nat>,
    flips: Seq<bool>,
    sigma: Seq<bool>,
)
    requires
        orig.len() <= u32::MAX,
        oriented_along_forest(orig, result, parent, key_of, depth, flips),
        orients(orig, sigma),
    ensures
        two_face_edges_agree(orig, result),
{
    assert forall|key: (u32, u32)| #[trigger] incident_faces(orig, key).len() == 2 implies walks_edge_forward(
        result[incident_faces(orig, key)[0] as int],
        key.0,
        key.1,
    ) != walks_edge_forward(result[incident_faces(orig, key)[1] as int], key.0, key.1) by {
        lemma_oriented_pair_facts(orig, sigma, key);
        let f0 = incident_faces(orig, key)[0] as int;
        let f1 = incident_faces(orig, key)[1] as int;
        let (d0, u0) = lemma_chain_to_root(orig, result, parent, key_of, depth, flips, sigma, f0);
        let (d1, u1) = lemma_chain_to_root(orig, result, parent, key_of, depth, flips, sigma, f1);
        assert(two_face_pair(orig, key, f0 as u32, f1 as u32));
        assert(two_face_pair(orig, key, f1 as u32, f0 as u32));
        lemma_link_paths_join(orig, d0, u1);
        lemma_link_paths_join(orig, d1, u0);
        let r0 = d0[0] as int;
        let r1 = d1[0] as int;
        assert(forest_at(orig, result, parent, key_of, depth, flips, r0));
        assert(forest_at(orig, result, parent, key_of, depth, flips, r1));
        assert(is_link_path(orig, d0 + u1) && (d0 + u1)[0] == r0 as u32);
        assert(is_link_path(orig, d1 + u0) && (d1 + u0)[0] == r1 as u32);
        assert(r0 == r1);
        assert(forest_at(orig, result, parent, key_of, depth, flips, f0));
        assert(forest_at(orig, result, parent, key_of, depth, flips, f1));
    }
}

/// In a forest over a mesh whose two-face edges all agree, no face is
/// reversed.
proof fn lemma_no_flip_on_agreeing_mesh(
    orig: Seq<[u32; 3]>,
    result: Seq<[u32; 3]>,
    parent: Seq<int>,
    key_of: Seq<(u32, u32)>,
    depth: Seq<nat>,
    flips: Seq<bool>,
    g: int,
)
    requires
        oriented_along_forest(orig, result, parent, key_of, depth, flips),
        forall|key: (u32, u32)| !#[trigger] misoriented_edge(orig, key),
        0 <= g < orig.len(),
    ensures
        !flips[g],
    decreases depth[g],
{
    assert(forest_at(orig, result, parent, key_of, depth, flips, g));
    if parent[g] >= 0 {
        lemma_no_flip_on_agreeing_mesh(orig, result, parent, key_of, depth, flips, parent[g]);
        assert(!misoriented_edge(orig, key_of[g]));
    }
}

/// Orienting a mesh whose two-face edges are all walked in opposite
/// directions by their two faces changes nothing: `after` is an outcome of
/// [`orient_consistent`] on `before`.
pub proof fn lemma_orienting_consistent_mesh_keeps_it(before: Seq<[u32; 3]>, after: Seq<[u32; 3]>)
    requires
        exists|parent: Seq<int>, key_of: Seq<(u32, u32)>, depth: Seq<nat>, flips: Seq<bool>|
            oriented_along_forest(before, after, parent, key_of, depth, flips),
        forall|key: (u32, u32)| !#[trigger] misoriented_edge(before, key),
    ensures
        after == before,
{
    let (parent, key_of, depth, flips) = choose|
        parent: Seq<int>,
        key_of: Seq<(u32, u32)>,
        depth: Seq<nat>,
        flips: Seq<bool>,
    | oriented_along_forest(before, after, parent, key_of, depth, flips);
    assert forall|i: int| 0 <= i < before.len() implies after[i] == before[i] by {
        lemma_no_flip_on_agreeing_mesh(before, after, parent, key_of, depth, flips, i);
        assert(forest_at(before, after, parent, key_of, depth, flips, i));
    }
    assert(after =~= before);
}

/// Orienting a mesh that some choice of reversals orients leaves every
/// two-face edge walked in opposite directions by its two faces: `after`
/// is an outcome of [`orient_consistent`] on `before`.
pub proof fn lemma_orienting_orientable_mesh_makes_edges_agree(before: Seq<[u32; 3]>, after: Seq<[u32; 3]>)
    requires
        before.len() <= u32::MAX,
        exists|parent: Seq<int>, key_of: Seq<(u32, u32)>, depth: Seq<nat>, flips: Seq<bool>|
            oriented_along_forest(before, after, parent, key_of, depth, flips),
        orientable(before),
    ensures
        two_face_edges_agree(before, after),
{
    let (parent, key_of, depth, flips) = choose|
        parent: Seq<int>,
        key_of: Seq<(u32, u32)>,
        depth: Seq<nat>,
        flips: Seq<bool>,
    | oriented_along_forest(before, after, parent, key_of, depth, flips);
    let sigma = choose|sigma: Seq<bool>| #[trigger] orients(before, sigma);
    lemma_forest_makes_edges_agree(before, after, parent, key_of, depth, flips, sigma);
}

} // verus!
