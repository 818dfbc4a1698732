//! Hash tables keyed the way the mesh algorithms need them.
//!
//! Each table keeps an `FxHashMap` from `rustc_hash` (the edge table keeps
//! its short face lists in `SmallVec`s from `smallvec`). Verus sees each
//! table only through the map that it holds, named by a spec function, and
//! through the methods below, whose contracts restate the behaviour of
//! `std::collections::HashMap` (`entry`/`or_default`, `get`, `insert`,
//! `iter`) for the table's key and value types. vstd's own `HashMap`
//! specification covers only hashers known to be valid, which the Fx hasher
//! is not, so the tables are declared here.
use rustc_hash::FxHashMap;
use smallvec::SmallVec;
use vstd::prelude::*;

verus! {

/// Undirected edge key to the list of faces lying on that edge.
#[verifier::external_body]
pub struct EdgeFaces {
    table: FxHashMap<(u32, u32), SmallVec<[u32; 2]>>,
}

/// The map that an [`EdgeFaces`] table holds.
pub uninterp spec fn edge_faces_contents(t: EdgeFaces) -> Map<(u32, u32), Seq<u32>>;

impl View for EdgeFaces {
    type V = Map<(u32, u32), Seq<u32>>;

    open spec fn view(&self) -> Map<(u32, u32), Seq<u32>> {
        edge_faces_contents(*self)
    }
}

impl EdgeFaces {
    /// `FxHashMap::default()`: a table that holds no entry.
    #[verifier::external_body]
    pub(crate) fn new() -> (r: EdgeFaces)
        ensures
            edge_faces_contents(r).is_empty(),
    {
        EdgeFaces { table: FxHashMap::default() }
    }

    /// `HashMap::entry(key).or_default().push(face)`: appends `face` to the
    /// list of `key`, starting from an empty `SmallVec` when `key` is absent.
    #[verifier::external_body]
    pub(crate) fn push_face(&mut self, key: (u32, u32), face: u32)
        ensures
            edge_faces_contents(*final(self)) == edge_faces_contents(*old(self)).insert(
                key,
                (if edge_faces_contents(*old(self)).contains_key(key) {
                    edge_faces_contents(*old(self))[key]
                } else {
                    Seq::<u32>::empty()
                }).push(face),
            ),
    {
        self.table.entry(key).or_default().push(face);
    }

    /// `HashMap::get(&key)`, the face list copied out of its `SmallVec`.
    #[verifier::external_body]
    pub(crate) fn get(&self, key: (u32, u32)) -> (r: Option<Vec<u32>>)
        ensures
            match r {
                Some(v) => edge_faces_contents(*self).contains_key(key) && v@
                    == edge_faces_contents(*self)[key],
                None => !edge_faces_contents(*self).contains_key(key),
            },
    {
        self.table.get(&key).map(|faces| faces.to_vec())
    }

    /// `HashMap::iter()`, each entry copied out. The walk order of the table
    /// is not stated: only that every entry comes out exactly once.
    #[verifier::external_body]
    pub(crate) fn entries(&self) -> (r: Vec<((u32, u32), Vec<u32>)>)
        ensures
            forall|i: int|
                #![trigger r@[i]]
                0 <= i < r@.len() ==> edge_faces_contents(*self).contains_key(r@[i].0)
                    && edge_faces_contents(*self)[r@[i].0] == r@[i].1@,
            forall|i: int, j: int|
                #![trigger r@[i], r@[j]]
                0 <= i < j < r@.len() ==> r@[i].0 != r@[j].0,
            forall|k: (u32, u32)|
                #[trigger] edge_faces_contents(*self).contains_key(k) ==> exists|i: int|
                    0 <= i < r@.len() && r@[i].0 == k,
    {
        self.table.iter().map(|(k, faces)| (*k, faces.to_vec())).collect()
    }
}

} // verus!

verus! {

/// Vertex to the list of vertices that directed half-edges from it reach.
#[verifier::external_body]
pub struct HalfEdges {
    table: FxHashMap<u32, Vec<u32>>,
}

/// The map that a [`HalfEdges`] table holds.
pub uninterp spec fn half_edges_contents(t: HalfEdges) -> Map<u32, Seq<u32>>;

impl HalfEdges {
    /// `FxHashMap::default()`: a table that holds no entry.
    #[verifier::external_body]
    pub(crate) fn new() -> (r: HalfEdges)
        ensures
            half_edges_contents(r).is_empty(),
    {
        HalfEdges { table: FxHashMap::default() }
    }

    /// `HashMap::entry(from).or_default().push(to)`: appends `to` to the
    /// list of `from`, starting from an empty `Vec` when `from` is absent.
    #[verifier::external_body]
    pub(crate) fn push_target(&mut self, from: u32, to: u32)
        ensures
            half_edges_contents(*final(self)) == half_edges_contents(*old(self)).insert(
                from,
                (if half_edges_contents(*old(self)).contains_key(from) {
                    half_edges_contents(*old(self))[from]
                } else {
                    Seq::<u32>::empty()
                }).push(to),
            ),
    {
        self.table.entry(from).or_default().push(to);
    }

    /// `HashMap::get(&from)`, the list cloned.
    #[verifier::external_body]
    pub(crate) fn get(&self, from: u32) -> (r: Option<Vec<u32>>)
        ensures
            match r {
                Some(v) => half_edges_contents(*self).contains_key(from) && v@
                    == half_edges_contents(*self)[from],
                None => !half_edges_contents(*self).contains_key(from),
            },
    {
        self.table.get(&from).cloned()
    }

    /// `HashMap::iter()`, each entry cloned. The walk order of the table is
    /// not stated: only that every entry comes out exactly once.
    #[verifier::external_body]
    pub(crate) fn entries(&self) -> (r: Vec<(u32, Vec<u32>)>)
        ensures
            forall|i: int|
                #![trigger r@[i]]
                0 <= i < r@.len() ==> half_edges_contents(*self).contains_key(r@[i].0)
                    && half_edges_contents(*self)[r@[i].0] == r@[i].1@,
            forall|i: int, j: int|
                #![trigger r@[i], r@[j]]
                0 <= i < j < r@.len() ==> r@[i].0 != r@[j].0,
            forall|k: u32|
                #[trigger] half_edges_contents(*self).contains_key(k) ==> exists|i: int|
                    0 <= i < r@.len() && r@[i].0 == k,
    {
        self.table.iter().map(|(k, v)| (*k, v.clone())).collect()
    }
}

/// Directed half-edge to a visited flag.
#[verifier::external_body]
pub struct VisitedEdges {
    table: FxHashMap<(u32, u32), bool>,
}

/// The map that a [`VisitedEdges`] table holds.
pub uninterp spec fn visited_edges_contents(t: VisitedEdges) -> Map<(u32, u32), bool>;

impl VisitedEdges {
    /// `FxHashMap::default()`: a table that holds no entry.
    #[verifier::external_body]
    pub(crate) fn new() -> (r: VisitedEdges)
        ensures
            visited_edges_contents(r).is_empty(),
    {
        VisitedEdges { table: FxHashMap::default() }
    }

    /// `HashMap::get(&key)`, the flag copied out.
    #[verifier::external_body]
    pub(crate) fn get(&self, key: (u32, u32)) -> (r: Option<bool>)
        ensures
            match r {
                Some(v) => visited_edges_contents(*self).contains_key(key) && v
                    == visited_edges_contents(*self)[key],
                None => !visited_edges_contents(*self).contains_key(key),
            },
    {
        self.table.get(&key).copied()
    }

    /// `HashMap::insert(key, value)`: maps `key` to `value`, replacing any
    /// earlier flag.
    #[verifier::external_body]
    pub(crate) fn insert(&mut self, key: (u32, u32), value: bool)
        ensures
            visited_edges_contents(*final(self)) == visited_edges_contents(*old(self)).insert(
                key,
                value,
            ),
    {
        self.table.insert(key, value);
    }
}

} // verus!

verus! {

/// A set of triangles, each written with its indices in ascending order.
#[verifier::external_body]
pub struct FaceKeys {
    table: FxHashMap<[u32; 3], ()>,
}

/// The keys that a [`FaceKeys`] table holds.
pub uninterp spec fn face_keys_contents(t: FaceKeys) -> Set<[u32; 3]>;

impl FaceKeys {
    /// `FxHashMap::default()`: a table that holds no key.
    #[verifier::external_body]
    pub(crate) fn new() -> (r: FaceKeys)
        ensures
            face_keys_contents(r).is_empty(),
    {
        FaceKeys { table: FxHashMap::default() }
    }

    /// `HashMap::insert(key, ()).is_none()`: adds `key`, telling whether it
    /// was absent before.
    #[verifier::external_body]
    pub(crate) fn insert(&mut self, key: [u32; 3]) -> (was_new: bool)
        ensures
            was_new == !face_keys_contents(*old(self)).contains(key),
            face_keys_contents(*final(self)) == face_keys_contents(*old(self)).insert(key),
    {
        self.table.insert(key, ()).is_none()
    }
}

} // verus!

verus! {

/// STEP entity id to the dense vertex index that the id was given.
#[verifier::external_body]
pub struct DenseIds {
    table: FxHashMap<i64, u32>,
}

/// The map that a [`DenseIds`] table holds.
pub uninterp spec fn dense_ids_contents(t: DenseIds) -> Map<i64, u32>;

impl DenseIds {
    /// `FxHashMap::default()`: a table that holds no entry.
    #[verifier::external_body]
    pub(crate) fn new() -> (r: DenseIds)
        ensures
            dense_ids_contents(r).is_empty(),
    {
        DenseIds { table: FxHashMap::default() }
    }

    /// `HashMap::insert(id, index)`: maps `id` to `index`, replacing any
    /// earlier index.
    #[verifier::external_body]
    pub(crate) fn insert(&mut self, id: i64, index: u32)
        ensures
            dense_ids_contents(*final(self)) == dense_ids_contents(*old(self)).insert(id, index),
    {
        self.table.insert(id, index);
    }

    /// `HashMap::get(&id)`, the index copied out.
    #[verifier::external_body]
    pub(crate) fn get(&self, id: i64) -> (r: Option<u32>)
        ensures
            match r {
                Some(v) => dense_ids_contents(*self).contains_key(id) && v
                    == dense_ids_contents(*self)[id],
                None => !dense_ids_contents(*self).contains_key(id),
            },
    {
        self.table.get(&id).copied()
    }
}

} // verus!
