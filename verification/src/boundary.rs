//! What the boundary-loop walk finds when the boundary is a set of simple
//! cycles: each cycle once, read around from one of its vertices.
use crate::topology::{
    enumerates, first_open, half_map, half_map_upto, incident_faces, indices_below, is_boundary_side,
    pairs_of, side_at, spec_edge_key, trim_closing, walk_all, walk_loop,
};
use vstd::prelude::*;
use vstd::arithmetic::div_mod::{lemma_mod_add_multiples_vanish, lemma_small_mod};
use vstd::set_lib::*;

verus! {

/// Step `j` of cycle `i`: the half-edge from its `j`-th vertex to the next,
/// the last vertex leading back to the first.
pub open spec fn cycle_step(cycles: Seq<Seq<u32>>, i: int, j: int) -> (u32, u32) {
    (cycles[i][j], cycles[i][(j + 1) % (cycles[i].len() as int)])
}

/// The boundary half-edges of `tris` (see [`is_boundary_side`](crate::topology::is_boundary_side)) are exactly
/// the steps of `cycles`: cycles of at least three different vertices, no
/// vertex on two cycles.
pub open spec fn boundary_cycles(tris: Seq<[u32; 3]>, cycles: Seq<Seq<u32>>) -> bool {
    &&& forall|i: int| 0 <= i < cycles.len() ==> (#[trigger] cycles[i]).len() >= 3 && cycles[i].no_duplicates()
    &&& forall|i1: int, j1: int, i2: int, j2: int|
        0 <= i1 < cycles.len() && 0 <= i2 < cycles.len() && i1 != i2 && 0 <= j1 < cycles[i1].len() && 0 <= j2
            < cycles[i2].len() ==> #[trigger] cycles[i1][j1] != #[trigger] cycles[i2][j2]
    &&& forall|a: u32, b: u32|
        #[trigger] is_boundary_side(tris, a, b) <==> exists|i: int, j: int|
            0 <= i < cycles.len() && 0 <= j < cycles[i].len() && #[trigger] cycle_step(cycles, i, j) == (a, b)
}

/// Cycle `c` read around from its `p`-th vertex.
pub open spec fn rotation(c: Seq<u32>, p: int) -> Seq<u32> {
    Seq::new(c.len(), |t: int| c[(p + t) % (c.len() as int)])
}

/// Every target listed in the boundary half-edge table forms a boundary
/// side with its source.
proof fn lemma_half_map_targets(tris: Seq<[u32; 3]>, s: nat)
    requires
        s <= 3 * tris.len(),
    ensures
        forall|a: u32, j: int|
            half_map_upto(tris, s).contains_key(a) && 0 <= j < half_map_upto(tris, s)[a].len() ==> is_boundary_side(
                tris,
                a,
                #[trigger] half_map_upto(tris, s)[a][j],
            ),
        forall|a: u32| #[trigger] half_map_upto(tris, s).contains_key(a) ==> half_map_upto(tris, s)[a].len() > 0,
    decreases s,
{
    if s > 0 {
        lemma_half_map_targets(tris, (s - 1) as nat);
        let m = half_map_upto(tris, (s - 1) as nat);
        let side = side_at(tris, s - 1);
        let m2 = half_map_upto(tris, s);
        assert forall|a: u32, j: int| m2.contains_key(a) && 0 <= j < m2[a].len() implies is_boundary_side(
            tris,
            a,
            #[trigger] m2[a][j],
        ) by {
            if incident_faces(tris, spec_edge_key(side.0, side.1)).len() == 1 && a == side.0 {
                if j == m2[a].len() - 1 {
                    assert(side_at(tris, s - 1) == (a, m2[a][j]));
                } else {
                    assert(m2[a][j] == m[a][j]);
                }
            }
        }
    }
}

/// The source of every boundary side is a key of the boundary half-edge
/// table.
proof fn lemma_half_map_sources(tris: Seq<[u32; 3]>, s: nat, s0: int)
    requires
        0 <= s0 < s,
        s <= 3 * tris.len(),
        incident_faces(tris, spec_edge_key(side_at(tris, s0).0, side_at(tris, s0).1)).len() == 1,
    ensures
        half_map_upto(tris, s).contains_key(side_at(tris, s0).0),
    decreases s,
{
    if s - 1 > s0 {
        lemma_half_map_sources(tris, (s - 1) as nat, s0);
    }
}

/// Every entry of `pairs_of(h, keys)` pairs a key with one of its targets.
proof fn lemma_pairs_of_entry(h: Map<u32, Seq<u32>>, keys: Seq<u32>, t: int)
    requires
        0 <= t < pairs_of(h, keys).len(),
    ensures
        keys.contains(pairs_of(h, keys)[t].0),
        exists|j: int|
            0 <= j < h[pairs_of(h, keys)[t].0].len() && #[trigger] h[pairs_of(h, keys)[t].0][j] == pairs_of(h, keys)[t].1,
    decreases keys.len(),
{
    let prev = pairs_of(h, keys.drop_last());
    let a = keys.last();
    if t < prev.len() {
        lemma_pairs_of_entry(h, keys.drop_last(), t);
        assert(pairs_of(h, keys)[t] == prev[t]);
        let x = choose|x: int| 0 <= x < keys.drop_last().len() && keys.drop_last()[x] == prev[t].0;
        assert(keys[x] == prev[t].0);
    } else {
        let j = t - prev.len();
        assert(pairs_of(h, keys)[t] == (a, h[a][j]));
        assert(keys[keys.len() - 1] == a);
    }
}

/// The first target of every key is paired with it in `pairs_of(h, keys)`.
proof fn lemma_pairs_of_first(h: Map<u32, Seq<u32>>, keys: Seq<u32>, a: u32) -> (t: int)
    requires
        keys.contains(a),
        h[a].len() >= 1,
    ensures
        0 <= t < pairs_of(h, keys).len(),
        pairs_of(h, keys)[t] == (a, h[a][0]),
    decreases keys.len(),
{
    let prev = pairs_of(h, keys.drop_last());
    if keys.last() == a {
        let t = prev.len() as int;
        assert(pairs_of(h, keys)[t] == (a, h[a][0]));
        t
    } else {
        let x = choose|x: int| 0 <= x < keys.len() && keys[x] == a;
        assert(keys.drop_last()[x] == a);
        let t = lemma_pairs_of_first(h, keys.drop_last(), a);
        assert(pairs_of(h, keys)[t] == prev[t]);
        t
    }
}

/// When every candidate is `x`, the first open one is `x` unless the
/// half-edge to it was used.
proof fn lemma_first_open_single(from: u32, cands: Seq<u32>, visited: Set<(u32, u32)>, j: int, x: u32)
    requires
        0 <= j < cands.len(),
        forall|k: int| 0 <= k < cands.len() ==> #[trigger] cands[k] == x,
    ensures
        first_open(from, cands, visited, j) == (if visited.contains((from, x)) {
            None
        } else {
            Some(x)
        }),
    decreases cands.len() - j,
{
    assert(cands[j] == x);
    if visited.contains((from, x)) {
        if j + 1 < cands.len() {
            lemma_first_open_single(from, cands, visited, j + 1, x);
        } else {
            assert(first_open(from, cands, visited, j + 1) is None);
        }
        assert(first_open(from, cands, visited, j) == first_open(from, cands, visited, j + 1));
    } else {
        assert(first_open(from, cands, visited, j) == Some(x));
    }
}

/// A sequence of different vertex numbers below `vc` has at most `vc`
/// entries.
proof fn lemma_distinct_below(c: Seq<u32>, vc: nat)
    requires
        c.no_duplicates(),
        forall|t: int| 0 <= t < c.len() ==> #[trigger] c[t] < vc,
    ensures
        c.len() <= vc,
{
    let s = Seq::new(c.len(), |t: int| c[t] as int);
    assert(s.no_duplicates()) by {
        assert forall|x: int, y: int| 0 <= x < s.len() && 0 <= y < s.len() && x != y implies s[x] != s[y] by {
            assert(c[x] != c[y]);
        }
    }
    s.unique_seq_to_set();
    lemma_int_range(0, vc as int);
    assert(s.to_set().subset_of(set_int_range(0, vc as int))) by {
        assert forall|v: int| s.to_set().contains(v) implies set_int_range(0, vc as int).contains(v) by {
            let t = choose|t: int| 0 <= t < s.len() && s[t] == v;
            assert(c[t] < vc);
        }
    }
    lemma_len_subset(s.to_set(), set_int_range(0, vc as int));
}

/// A number below twice `l` taken modulo `l`.
proof fn lemma_mod_once(x: int, l: int)
    requires
        0 < l,
        0 <= x < 2 * l,
    ensures
        x % l == (if x < l {
            x
        } else {
            x - l
        }),
{
    if x < l {
        lemma_small_mod(x as nat, l as nat);
    } else {
        lemma_small_mod((x - l) as nat, l as nat);
        lemma_mod_add_multiples_vanish(x - l, l);
    }
}

/// Equal steps of the cycles are the same step.
proof fn lemma_cycle_steps_distinct(tris: Seq<[u32; 3]>, cycles: Seq<Seq<u32>>, i1: int, j1: int, i2: int, j2: int)
    requires
        boundary_cycles(tris, cycles),
        0 <= i1 < cycles.len(),
        0 <= i2 < cycles.len(),
        0 <= j1 < cycles[i1].len(),
        0 <= j2 < cycles[i2].len(),
        cycle_step(cycles, i1, j1) == cycle_step(cycles, i2, j2),
    ensures
        i1 == i2,
        j1 == j2,
{
    assert(cycles[i1].len() >= 3 && cycles[i2].len() >= 3);
    if i1 != i2 {
        assert(cycles[i1][j1] != cycles[i2][j2]);
    }
    assert(cycles[i1].no_duplicates());
}

/// The vertices of a cycle are vertices of the triangles, so a cycle has
/// at most `vc` of them.
proof fn lemma_cycle_len_bound(tris: Seq<[u32; 3]>, cycles: Seq<Seq<u32>>, vc: nat, i: int)
    requires
        boundary_cycles(tris, cycles),
        indices_below(tris, vc as int),
        0 <= i < cycles.len(),
    ensures
        cycles[i].len() <= vc,
{
    let c = cycles[i];
    assert(c.len() >= 3 && c.no_duplicates());
    assert forall|t: int| 0 <= t < c.len() implies #[trigger] c[t] < vc by {
        let st = cycle_step(cycles, i, t);
        assert(is_boundary_side(tris, st.0, st.1));
        let s = choose|s: int| 0 <= s < 3 * tris.len() && #[trigger] side_at(tris, s) == (st.0, st.1);
        let f = s / 3;
        assert(0 <= f < tris.len());
        assert(tris[f][0] < vc && tris[f][1] < vc && tris[f][2] < vc);
    }
    lemma_distinct_below(c, vc);
}

/// A vertex of a cycle is a key of the boundary half-edge table, and every
/// target listed for it is the next vertex of its cycle.
proof fn lemma_cycle_vertex_targets(tris: Seq<[u32; 3]>, cycles: Seq<Seq<u32>>, i: int, q: int)
    requires
        boundary_cycles(tris, cycles),
        0 <= i < cycles.len(),
        0 <= q < cycles[i].len(),
    ensures
        half_map(tris).contains_key(cycles[i][q]),
        half_map(tris)[cycles[i][q]].len() > 0,
        forall|jj: int|
            0 <= jj < half_map(tris)[cycles[i][q]].len() ==> #[trigger] half_map(tris)[cycles[i][q]][jj]
                == cycles[i][(q + 1) % (cycles[i].len() as int)],
{
    let h = half_map(tris);
    let v = cycles[i][q];
    let st = cycle_step(cycles, i, q);
    assert(is_boundary_side(tris, st.0, st.1));
    let s = choose|s: int| 0 <= s < 3 * tris.len() && #[trigger] side_at(tris, s) == (st.0, st.1);
    lemma_half_map_sources(tris, 3 * tris.len(), s);
    lemma_half_map_targets(tris, 3 * tris.len());
    assert forall|jj: int| 0 <= jj < h[v].len() implies #[trigger] h[v][jj] == cycles[i][(q + 1) % (cycles[i].len() as int)] by {
        assert(is_boundary_side(tris, v, h[v][jj]));
        let (i2, j2) = choose|i2: int, j2: int|
            0 <= i2 < cycles.len() && 0 <= j2 < cycles[i2].len() && #[trigger] cycle_step(cycles, i2, j2) == (v, h[v][jj]);
        assert(cycles[i2].len() >= 3);
        if i2 != i {
            assert(cycles[i2][j2] != cycles[i][q]);
        }
        assert(cycles[i].no_duplicates());
    }
}

/// The steps `p`, `p + 1`, ..., `p + k - 1` of cycle `i`, around the cycle.
pub open spec fn steps_from(cycles: Seq<Seq<u32>>, i: int, p: int, k: int) -> Set<(u32, u32)> {
    Set::new(|e: (u32, u32)| exists|t: int| 0 <= t < k && e == #[trigger] cycle_step(cycles, i, (p + t) % (cycles[i].len() as int)))
}

/// Walking from step `p + m - 1` of a cycle none of whose steps were used
/// goes on around the cycle and stops when the next step would return to
/// its start: it yields the cycle read around from vertex `p` and uses every
/// step of it but the one back into vertex `p`.
proof fn lemma_walk_around(
    tris: Seq<[u32; 3]>,
    cycles: Seq<Seq<u32>>,
    vc: nat,
    visited: Set<(u32, u32)>,
    i: int,
    p: int,
    m: int,
)
    requires
        boundary_cycles(tris, cycles),
        indices_below(tris, vc as int),
        0 <= i < cycles.len(),
        0 <= p < cycles[i].len(),
        1 <= m < cycles[i].len(),
        forall|j: int| 0 <= j < cycles[i].len() ==> !visited.contains(#[trigger] cycle_step(cycles, i, j)),
    ensures
        ({
            let c = cycles[i];
            let l = c.len() as int;
            walk_loop(
                half_map(tris),
                vc,
                visited.union(steps_from(cycles, i, p, m - 1)),
                c[p],
                c[(p + m - 1) % l],
                c[(p + m) % l],
                rotation(c, p).take(m),
            ) == (rotation(c, p), visited.union(steps_from(cycles, i, p, l - 1)))
        }),
    decreases cycles[i].len() - m,
{
    let c = cycles[i];
    let l = c.len() as int;
    let h = half_map(tris);
    assert(l >= 3 && c.no_duplicates());
    lemma_cycle_len_bound(tris, cycles, vc, i);
    lemma_mod_once(p + m - 1, l);
    lemma_mod_once(p + m, l);
    lemma_mod_once(p + m + 1, l);
    lemma_mod_once((p + m - 1) % l + 1, l);
    let cur = c[(p + m - 1) % l];
    let next = c[(p + m) % l];
    let v1 = visited.union(steps_from(cycles, i, p, m - 1));
    let v2 = v1.insert((cur, next));
    let verts2 = rotation(c, p).take(m).push(next);
    assert(cycle_step(cycles, i, (p + m - 1) % l) == (cur, next));
    assert(v2 =~= visited.union(steps_from(cycles, i, p, m))) by {
        assert forall|e: (u32, u32)| v2.contains(e) <==> visited.union(steps_from(cycles, i, p, m)).contains(e) by {
            if e == (cur, next) {
                assert(steps_from(cycles, i, p, m).contains(e)) by {
                    assert(e == cycle_step(cycles, i, (p + (m - 1)) % l));
                }
            }
            if steps_from(cycles, i, p, m).contains(e) {
                let t = choose|t: int| 0 <= t < m && e == #[trigger] cycle_step(cycles, i, (p + t) % l);
                if t < m - 1 {
                    assert(steps_from(cycles, i, p, m - 1).contains(e));
                }
            }
            if steps_from(cycles, i, p, m - 1).contains(e) {
                let t = choose|t: int| 0 <= t < m - 1 && e == #[trigger] cycle_step(cycles, i, (p + t) % l);
                assert(steps_from(cycles, i, p, m).contains(e));
            }
        }
    }
    assert(verts2 =~= rotation(c, p).take(m + 1));
    lemma_cycle_vertex_targets(tris, cycles, i, (p + m) % l);
    let succ = c[((p + m) % l + 1) % l];
    lemma_mod_once((p + m) % l + 1, l);
    assert(succ == c[(p + m + 1) % l]);
    lemma_first_open_single(next, h[next], v2, 0, succ);
    assert(cycle_step(cycles, i, (p + m) % l) == (next, succ));
    assert(!v2.contains((next, succ))) by {
        if v2.contains((next, succ)) {
            if visited.contains((next, succ)) {
                assert(!visited.contains(cycle_step(cycles, i, (p + m) % l)));
            } else {
                let t = choose|t: int| 0 <= t < m && (next, succ) == #[trigger] cycle_step(cycles, i, (p + t) % l);
                lemma_mod_once(p + t, l);
                lemma_cycle_steps_distinct(tris, cycles, i, (p + t) % l, i, (p + m) % l);
            }
        }
    }
    if m + 1 == l {
        assert(succ == c[p]);
        assert(verts2 =~= rotation(c, p));
    } else {
        assert(succ != c[p]) by {
            assert(c[(p + m + 1) % l] != c[p]);
        }
        assert(verts2.len() <= vc + 2);
        lemma_walk_around(tris, cycles, vc, visited, i, p, m + 1);
    }
}

/// Walking from the one unused step of a cycle, the step into the vertex
/// its earlier walk started from, stops at once: the next step was used.
proof fn lemma_walk_closing_step(
    tris: Seq<[u32; 3]>,
    cycles: Seq<Seq<u32>>,
    vc: nat,
    visited: Set<(u32, u32)>,
    i: int,
    p: int,
)
    requires
        boundary_cycles(tris, cycles),
        0 <= i < cycles.len(),
        0 <= p < cycles[i].len(),
        visited.contains(cycle_step(cycles, i, p)),
    ensures
        ({
            let c = cycles[i];
            let l = c.len() as int;
            let a = c[(p + l - 1) % l];
            walk_loop(half_map(tris), vc, visited, a, a, c[p], seq![a]) == (seq![a, c[p]], visited.insert((a, c[p])))
        }),
{
    let c = cycles[i];
    let l = c.len() as int;
    assert(l >= 3);
    let h = half_map(tris);
    let a = c[(p + l - 1) % l];
    lemma_mod_once(p + l - 1, l);
    lemma_mod_once(p + 1, l);
    let v2 = visited.insert((a, c[p]));
    lemma_cycle_vertex_targets(tris, cycles, i, p);
    lemma_first_open_single(c[p], h[c[p]], v2, 0, c[(p + 1) % l]);
    assert(seq![a].push(c[p]) =~= seq![a, c[p]]);
}

/// Where the walks over the first starts stand: `ord` lists the cycles
/// walked so far, one per loop found, and `pos[i]` the vertex from which
/// cycle `i` was read (negative while it was not walked); the used
/// half-edges are steps of walked cycles, and they hold every step of a
/// walked cycle but the one back into its start.
spec fn walk_progress(
    cycles: Seq<Seq<u32>>,
    w: (Seq<Seq<u32>>, Set<(u32, u32)>),
    ord: Seq<int>,
    pos: Seq<int>,
) -> bool {
    &&& pos.len() == cycles.len()
    &&& ord.len() == w.0.len()
    &&& ord.no_duplicates()
    &&& forall|t: int|
        0 <= t < ord.len() ==> 0 <= #[trigger] ord[t] < cycles.len() && pos[ord[t]] >= 0 && w.0[t] == rotation(
            cycles[ord[t]],
            pos[ord[t]],
        )
    &&& forall|i: int| 0 <= i < cycles.len() ==> (#[trigger] pos[i] >= 0 <==> ord.contains(i)) && pos[i] < cycles[i].len()
    &&& forall|e: (u32, u32)|
        #[trigger] w.1.contains(e) ==> exists|i: int, j: int|
            0 <= i < cycles.len() && pos[i] >= 0 && 0 <= j < cycles[i].len() && e == #[trigger] cycle_step(cycles, i, j)
    &&& forall|i: int, j: int|
        0 <= i < cycles.len() && pos[i] >= 0 && 0 <= j < cycles[i].len() && j != (pos[i] + cycles[i].len() - 1) % (
        cycles[i].len() as int) ==> w.1.contains(#[trigger] cycle_step(cycles, i, j))
}

/// The walks over the first `k` starts, each a boundary half-edge, leave
/// the cycles of every start among them walked.
proof fn lemma_walk_prefix(
    tris: Seq<[u32; 3]>,
    vc: nat,
    starts: Seq<(u32, u32)>,
    cycles: Seq<Seq<u32>>,
    k: int,
) -> (r: (Seq<int>, Seq<int>))
    requires
        boundary_cycles(tris, cycles),
        indices_below(tris, vc as int),
        0 <= k <= starts.len(),
        forall|t: int| 0 <= t < starts.len() ==> is_boundary_side(tris, #[trigger] starts[t].0, starts[t].1),
    ensures
        walk_progress(cycles, walk_all(half_map(tris), vc, starts.subrange(0, k)), r.0, r.1),
        forall|t: int, i: int, j: int|
            0 <= t < k && 0 <= i < cycles.len() && 0 <= j < cycles[i].len() && #[trigger] starts[t]
                == #[trigger] cycle_step(cycles, i, j) ==> r.1[i] >= 0,
    decreases k,
{
    let h = half_map(tris);
    if k == 0 {
        let ord: Seq<int> = Seq::empty();
        let pos: Seq<int> = Seq::new(cycles.len(), |i: int| -1int);
        assert(starts.subrange(0, 0) =~= Seq::<(u32, u32)>::empty());
        assert(walk_progress(cycles, walk_all(h, vc, starts.subrange(0, 0)), ord, pos));
        (ord, pos)
    } else {
        let (ord, pos) = lemma_walk_prefix(tris, vc, starts, cycles, k - 1);
        let prev = walk_all(h, vc, starts.subrange(0, k - 1));
        assert(starts.subrange(0, k).drop_last() =~= starts.subrange(0, k - 1));
        let (a, b) = starts[k - 1];
        assert(starts.subrange(0, k).last() == (a, b));
        assert(is_boundary_side(tris, a, b));
        let (i, j) = choose|i: int, j: int|
            0 <= i < cycles.len() && 0 <= j < cycles[i].len() && #[trigger] cycle_step(cycles, i, j) == (a, b);
        let c = cycles[i];
        let l = c.len() as int;
        assert(l >= 3 && c.no_duplicates());
        let w = walk_all(h, vc, starts.subrange(0, k));
        if prev.1.contains((a, b)) {
            assert(w == prev);
            let (i2, j2) = choose|i2: int, j2: int|
                0 <= i2 < cycles.len() && pos[i2] >= 0 && 0 <= j2 < cycles[i2].len() && (a, b) == #[trigger] cycle_step(cycles, i2, j2);
            lemma_cycle_steps_distinct(tris, cycles, i, j, i2, j2);
            assert forall|t: int, i3: int, j3: int|
                0 <= t < k && 0 <= i3 < cycles.len() && 0 <= j3 < cycles[i3].len() && #[trigger] starts[t]
                    == #[trigger] cycle_step(cycles, i3, j3) implies pos[i3] >= 0 by {
                if t == k - 1 {
                    lemma_cycle_steps_distinct(tris, cycles, i, j, i3, j3);
                }
            }
            (ord, pos)
        } else if pos[i] < 0 {
            assert forall|jj: int| 0 <= jj < l implies !prev.1.contains(#[trigger] cycle_step(cycles, i, jj)) by {
                if prev.1.contains(cycle_step(cycles, i, jj)) {
                    let (i2, j2) = choose|i2: int, j2: int|
                        0 <= i2 < cycles.len() && pos[i2] >= 0 && 0 <= j2 < cycles[i2].len() && cycle_step(cycles, i, jj)
                            == #[trigger] cycle_step(cycles, i2, j2);
                    lemma_cycle_steps_distinct(tris, cycles, i, jj, i2, j2);
                }
            }
            lemma_mod_once(j, l);
            lemma_mod_once(j + 1, l);
            assert(steps_from(cycles, i, j, 0) =~= Set::<(u32, u32)>::empty());
            assert(prev.1.union(steps_from(cycles, i, j, 0)) =~= prev.1);
            assert(rotation(c, j).take(1) =~= seq![a]);
            lemma_walk_around(tris, cycles, vc, prev.1, i, j, 1);
            let rot = rotation(c, j);
            let used = prev.1.union(steps_from(cycles, i, j, l - 1));
            assert(walk_loop(h, vc, prev.1, a, a, b, seq![a]) == (rot, used));
            lemma_mod_once(j + l - 1, l);
            assert(rot[rot.len() - 1] == c[(j + l - 1) % l]);
            assert(rot[0] == c[j]);
            assert(trim_closing(rot) == rot);
            assert(w == (prev.0.push(rot), used));
            let ord2 = ord.push(i);
            let pos2 = pos.update(i, j);
            assert forall|t: int|
                0 <= t < ord2.len() implies 0 <= #[trigger] ord2[t] < cycles.len() && pos2[ord2[t]] >= 0 && w.0[t]
                    == rotation(cycles[ord2[t]], pos2[ord2[t]]) by {
                if t < ord.len() {
                    assert(ord2[t] == ord[t]);
                    assert(ord[t] != i);
                }
            }
            assert(ord2.no_duplicates());
            assert forall|i3: int| 0 <= i3 < cycles.len() implies (#[trigger] pos2[i3] >= 0 <==> ord2.contains(i3))
                && pos2[i3] < cycles[i3].len() by {
                if i3 != i {
                    if ord2.contains(i3) {
                        let t = choose|t: int| 0 <= t < ord2.len() && ord2[t] == i3;
                        assert(t < ord.len());
                    }
                    if ord.contains(i3) {
                        let t = choose|t: int| 0 <= t < ord.len() && ord[t] == i3;
                        assert(ord2[t] == i3);
                    }
                } else {
                    assert(ord2[ord.len() as int] == i);
                }
            }
            assert forall|e: (u32, u32)| #[trigger] w.1.contains(e) implies exists|i3: int, j3: int|
                0 <= i3 < cycles.len() && pos2[i3] >= 0 && 0 <= j3 < cycles[i3].len() && e == #[trigger] cycle_step(
                    cycles,
                    i3,
                    j3,
                ) by {
                if prev.1.contains(e) {
                    let (i3, j3) = choose|i3: int, j3: int|
                        0 <= i3 < cycles.len() && pos[i3] >= 0 && 0 <= j3 < cycles[i3].len() && e == #[trigger] cycle_step(cycles, i3, j3);
                    assert(pos2[i3] >= 0);
                } else {
                    let t = choose|t: int| 0 <= t < l - 1 && e == #[trigger] cycle_step(cycles, i, (j + t) % l);
                    lemma_mod_once(j + t, l);
                    assert(pos2[i] >= 0);
                }
            }
            assert forall|i3: int, j3: int|
                0 <= i3 < cycles.len() && pos2[i3] >= 0 && 0 <= j3 < cycles[i3].len() && j3 != (pos2[i3]
                    + cycles[i3].len() - 1) % (cycles[i3].len() as int) implies w.1.contains(
                #[trigger] cycle_step(cycles, i3, j3),
            ) by {
                if i3 != i {
                    assert(prev.1.contains(cycle_step(cycles, i3, j3)));
                } else {
                    let t = if j3 >= j {
                        j3 - j
                    } else {
                        j3 - j + l
                    };
                    lemma_mod_once(j + t, l);
                    assert((j + t) % l == j3);
                    assert(t < l - 1);
                    assert(steps_from(cycles, i, j, l - 1).contains(cycle_step(cycles, i, (j + t) % l)));
                }
            }
            assert(walk_progress(cycles, w, ord2, pos2));
            assert forall|t: int, i3: int, j3: int|
                0 <= t < k && 0 <= i3 < cycles.len() && 0 <= j3 < cycles[i3].len() && #[trigger] starts[t]
                    == #[trigger] cycle_step(cycles, i3, j3) implies pos2[i3] >= 0 by {
                if t == k - 1 {
                    lemma_cycle_steps_distinct(tris, cycles, i, j, i3, j3);
                } else {
                    assert(pos[i3] >= 0);
                }
            }
            (ord2, pos2)
        } else {
            let p = pos[i];
            lemma_mod_once(p + l - 1, l);
            assert(j == (p + l - 1) % l);
            lemma_mod_once(j + 1, l);
            assert(b == c[p]);
            assert(prev.1.contains(cycle_step(cycles, i, p)));
            lemma_walk_closing_step(tris, cycles, vc, prev.1, i, p);
            assert(w == (prev.0, prev.1.insert((a, b))));
            assert forall|e: (u32, u32)| #[trigger] w.1.contains(e) implies exists|i3: int, j3: int|
                0 <= i3 < cycles.len() && pos[i3] >= 0 && 0 <= j3 < cycles[i3].len() && e == #[trigger] cycle_step(
                    cycles,
                    i3,
                    j3,
                ) by {
                if e == (a, b) {
                    assert(e == cycle_step(cycles, i, j));
                }
            }
            assert(walk_progress(cycles, w, ord, pos));
            assert forall|t: int, i3: int, j3: int|
                0 <= t < k && 0 <= i3 < cycles.len() && 0 <= j3 < cycles[i3].len() && #[trigger] starts[t]
                    == #[trigger] cycle_step(cycles, i3, j3) implies pos[i3] >= 0 by {
                if t == k - 1 {
                    lemma_cycle_steps_distinct(tris, cycles, i, j, i3, j3);
                }
            }
            (ord, pos)
        }
    }
}

/// `loops` holds each of `cycles` exactly once: loop `t` is cycle `ord[t]`
/// read around from its vertex `pos[t]`, and every cycle is one of them.
pub open spec fn each_cycle_once(loops: Seq<Seq<u32>>, cycles: Seq<Seq<u32>>, ord: Seq<int>, pos: Seq<int>) -> bool {
    &&& ord.len() == loops.len()
    &&& pos.len() == loops.len()
    &&& ord.no_duplicates()
    &&& forall|i: int| 0 <= i < cycles.len() ==> #[trigger] ord.contains(i)
    &&& forall|t: int|
        0 <= t < loops.len() ==> 0 <= #[trigger] ord[t] < cycles.len() && 0 <= pos[t] < cycles[ord[t]].len()
            && loops[t] == rotation(cycles[ord[t]], pos[t])
}

/// Every loop has at least three different vertices; each of its steps,
/// the one from its last vertex back to its first included, is a boundary
/// half-edge of `tris`; every boundary half-edge is a step of exactly one
/// loop, at exactly one place.
pub open spec fn loops_cover_boundary(tris: Seq<[u32; 3]>, loops: Seq<Seq<u32>>) -> bool {
    &&& forall|t: int| 0 <= t < loops.len() ==> (#[trigger] loops[t]).len() >= 3 && loops[t].no_duplicates()
    &&& forall|t: int, m: int|
        0 <= t < loops.len() && 0 <= m < loops[t].len() ==> is_boundary_side(
            tris,
            (#[trigger] cycle_step(loops, t, m)).0,
            cycle_step(loops, t, m).1,
        )
    &&& forall|a: u32, b: u32|
        #[trigger] is_boundary_side(tris, a, b) ==> exists|t: int, m: int|
            0 <= t < loops.len() && 0 <= m < loops[t].len() && #[trigger] cycle_step(loops, t, m) == (a, b)
    &&& forall|t1: int, m1: int, t2: int, m2: int|
        0 <= t1 < loops.len() && 0 <= m1 < loops[t1].len() && 0 <= t2 < loops.len() && 0 <= m2 < loops[t2].len()
            && #[trigger] cycle_step(loops, t1, m1) == #[trigger] cycle_step(loops, t2, m2) ==> t1 == t2 && m1 == m2
}

/// Step `m` of a loop that reads cycle `i` around from vertex `p` is step
/// `p + m` of the cycle.
proof fn lemma_rotation_step(cycles: Seq<Seq<u32>>, loops: Seq<Seq<u32>>, t: int, i: int, p: int, m: int)
    requires
        0 <= t < loops.len(),
        0 <= i < cycles.len(),
        cycles[i].len() >= 1,
        0 <= p < cycles[i].len(),
        0 <= m < cycles[i].len(),
        loops[t] == rotation(cycles[i], p),
    ensures
        cycle_step(loops, t, m) == cycle_step(cycles, i, (p + m) % (cycles[i].len() as int)),
{
    let l = cycles[i].len() as int;
    lemma_mod_once(m + 1, l);
    lemma_mod_once(p + m, l);
    lemma_mod_once(p + m + 1, l);
    lemma_mod_once((p + m) % l + 1, l);
    lemma_mod_once(p + (m + 1) % l, l);
    assert(loops[t].len() == l);
}

/// Loops that hold each cycle once cover the boundary (see
/// [`loops_cover_boundary`]).
proof fn lemma_each_cycle_once_covers(
    tris: Seq<[u32; 3]>,
    cycles: Seq<Seq<u32>>,
    loops: Seq<Seq<u32>>,
    ord: Seq<int>,
    pos: Seq<int>,
)
    requires
        boundary_cycles(tris, cycles),
        each_cycle_once(loops, cycles, ord, pos),
    ensures
        loops_cover_boundary(tris, loops),
{
    assert forall|t: int| 0 <= t < loops.len() implies (#[trigger] loops[t]).len() >= 3 && loops[t].no_duplicates() by {
        let c = cycles[ord[t]];
        let l = c.len() as int;
        let p = pos[t];
        assert(l >= 3 && c.no_duplicates());
        assert forall|x: int, y: int| 0 <= x < loops[t].len() && 0 <= y < loops[t].len() && x != y implies loops[t][x]
            != loops[t][y] by {
            lemma_mod_once(p + x, l);
            lemma_mod_once(p + y, l);
        }
    }
    assert forall|t: int, m: int| 0 <= t < loops.len() && 0 <= m < loops[t].len() implies is_boundary_side(
        tris,
        (#[trigger] cycle_step(loops, t, m)).0,
        cycle_step(loops, t, m).1,
    ) by {
        let i = ord[t];
        assert(cycles[i].len() >= 3);
        lemma_rotation_step(cycles, loops, t, i, pos[t], m);
        let j = (pos[t] + m) % (cycles[i].len() as int);
        lemma_mod_once(pos[t] + m, cycles[i].len() as int);
        assert(cycle_step(cycles, i, j) == cycle_step(loops, t, m));
    }
    assert forall|a: u32, b: u32| #[trigger] is_boundary_side(tris, a, b) implies exists|t: int, m: int|
        0 <= t < loops.len() && 0 <= m < loops[t].len() && #[trigger] cycle_step(loops, t, m) == (a, b) by {
        let (i, j) = choose|i: int, j: int|
            0 <= i < cycles.len() && 0 <= j < cycles[i].len() && #[trigger] cycle_step(cycles, i, j) == (a, b);
        assert(ord.contains(i));
        let t = choose|t: int| 0 <= t < ord.len() && ord[t] == i;
        let l = cycles[i].len() as int;
        assert(l >= 3);
        let p = pos[t];
        let m = if j >= p {
            j - p
        } else {
            j - p + l
        };
        lemma_mod_once(p + m, l);
        lemma_rotation_step(cycles, loops, t, i, p, m);
        assert(cycle_step(loops, t, m) == (a, b));
    }
    assert forall|t1: int, m1: int, t2: int, m2: int|
        0 <= t1 < loops.len() && 0 <= m1 < loops[t1].len() && 0 <= t2 < loops.len() && 0 <= m2 < loops[t2].len()
            && #[trigger] cycle_step(loops, t1, m1) == #[trigger] cycle_step(loops, t2, m2) implies t1 == t2 && m1 == m2 by {
        let i1 = ord[t1];
        let i2 = ord[t2];
        assert(cycles[i1].len() >= 3 && cycles[i2].len() >= 3);
        let l1 = cycles[i1].len() as int;
        let l2 = cycles[i2].len() as int;
        lemma_rotation_step(cycles, loops, t1, i1, pos[t1], m1);
        lemma_rotation_step(cycles, loops, t2, i2, pos[t2], m2);
        lemma_mod_once(pos[t1] + m1, l1);
        lemma_mod_once(pos[t2] + m2, l2);
        lemma_cycle_steps_distinct(tris, cycles, i1, (pos[t1] + m1) % l1, i2, (pos[t2] + m2) % l2);
        assert(ord.no_duplicates());
    }
}

/// When the boundary half-edges of `tris` form simple cycles of at least
/// three vertices, no vertex on two of them (see [`boundary_cycles`]), the
/// boundary-loop walk finds each cycle exactly once, read around from one of
/// its vertices, whatever order the half-edge table is walked in (see
/// [`each_cycle_once`]), so that the loops cover the boundary (see
/// [`loops_cover_boundary`]). `starts` is a listing of the table as
/// [`extract_boundary_loops`](crate::topology::extract_boundary_loops) takes it, and `vc` bounds the vertex numbers.
pub proof fn lemma_boundary_cycles_are_the_loops(
    tris: Seq<[u32; 3]>,
    vc: nat,
    starts: Seq<(u32, u32)>,
    cycles: Seq<Seq<u32>>,
)
    requires
        indices_below(tris, vc as int),
        boundary_cycles(tris, cycles),
        enumerates(starts, half_map(tris)),
    ensures
        exists|ord: Seq<int>, pos: Seq<int>|
            each_cycle_once(walk_all(half_map(tris), vc, starts).0, cycles, ord, pos),
        loops_cover_boundary(tris, walk_all(half_map(tris), vc, starts).0),
{
    let h = half_map(tris);
    let keys = choose|keys: Seq<u32>|
        keys.no_duplicates() && (forall|a: u32| keys.contains(a) <==> #[trigger] h.contains_key(a)) && starts
            == pairs_of(h, keys);
    lemma_half_map_targets(tris, 3 * tris.len());
    assert forall|t: int| 0 <= t < starts.len() implies is_boundary_side(tris, #[trigger] starts[t].0, starts[t].1) by {
        lemma_pairs_of_entry(h, keys, t);
        let jj = choose|jj: int| 0 <= jj < h[starts[t].0].len() && #[trigger] h[starts[t].0][jj] == starts[t].1;
        assert(h.contains_key(starts[t].0));
    }
    let (ord, pos) = lemma_walk_prefix(tris, vc, starts, cycles, starts.len() as int);
    assert(starts.subrange(0, starts.len() as int) =~= starts);
    let loops = walk_all(h, vc, starts).0;
    let w = walk_all(h, vc, starts);
    assert(walk_progress(cycles, w, ord, pos));
    assert forall|i: int| 0 <= i < cycles.len() implies #[trigger] ord.contains(i) by {
        assert(cycles[i].len() >= 3);
        lemma_cycle_vertex_targets(tris, cycles, i, 0);
        let v = cycles[i][0];
        assert(keys.contains(v));
        let t = lemma_pairs_of_first(h, keys, v);
        assert(h[v][0] == cycles[i][(0int + 1) % (cycles[i].len() as int)]);
        assert(starts[t] == cycle_step(cycles, i, 0));
        assert(pos[i] >= 0);
    }
    let pos_t = Seq::new(ord.len(), |t: int| pos[ord[t]]);
    assert(each_cycle_once(loops, cycles, ord, pos_t));
    lemma_each_cycle_once_covers(tris, cycles, loops, ord, pos_t);
}

} // verus!
