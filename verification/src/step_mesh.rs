//! Rebuilding a triangle list from faceted STEP text: the header check,
//! the `CARTESIAN_POINT` statements, the dense numbering of point ids and
//! the triangles of the `POLY_LOOP` and triangle statements.
use crate::error::K1FixError;
use crate::step::{
    contains_word, entity_id, explicit_triangle_refs, explicit_triangles, has_step_header,
    has_word, header_word, iso_word, lemma_statement_end, parse_entity_id, per_statement,
    poly_loop_captures, poly_loops, find_statement_end,
};
use crate::tables::{dense_ids_contents, DenseIds};
use crate::topology::indices_below;
use vstd::prelude::*;
use vstd::slice::{slice_subrange, slice_to_vec};

verus! {

/// What `std::str::from_utf8` reports of `b`: nothing when `b` is valid
/// UTF-8, else the text of its error.
pub uninterp spec fn utf8_error(b: Seq<u8>) -> Option<Seq<char>>;

/// `std::str::from_utf8(b)`, its error rendered with `to_string`. The
/// contract names the outcome only; it claims that the same bytes give the
/// same outcome.
#[verifier::external_body]
fn utf8_error_of(b: &[u8]) -> (r: Option<String>)
    ensures
        match r {
            Some(m) => utf8_error(b@) == Some(m@),
            None => utf8_error(b@) is None,
        },
{
    match std::str::from_utf8(b) {
        Ok(_) => None,
        Err(e) => Some(e.to_string()),
    }
}

/// `slice::sort_unstable` on ids: the same ids, ascending.
#[verifier::external_body]
fn sort_ids(ids: &mut Vec<i64>)
    ensures
        final(ids)@.to_multiset() == old(ids)@.to_multiset(),
        forall|i: int, j: int|
            0 <= i <= j < final(ids)@.len() ==> final(ids)@[i] <= final(ids)@[j],
{
    ids.sort_unstable();
}

/// `b` is accepted as STEP text: valid UTF-8 that carries `ISO-10303` or
/// `HEADER`.
pub open spec fn is_step_text(b: Seq<u8>) -> bool {
    utf8_error(b) is None && (contains_word(b, iso_word(), false) || contains_word(
        b,
        header_word(),
        false,
    ))
}

/// Checks that `bytes` can be read as STEP text: it must be UTF-8 and carry
/// the `ISO-10303` or `HEADER` marker.
pub fn check_step_text(bytes: &[u8]) -> (r: Result<(), K1FixError>)
    ensures
        r is Ok <==> is_step_text(bytes@),
        match r {
            Ok(_) => true,
            Err(K1FixError::Step(m)) => match utf8_error(bytes@) {
                Some(text) => m@ == "STEP is not UTF-8: "@ + text,
                None => m@ == "not a STEP file (missing ISO-10303 header)"@,
            },
            Err(_) => false,
        },
{
    match utf8_error_of(bytes) {
        Some(text) => {
            let mut m = String::from_str("STEP is not UTF-8: ");
            m.append(text.as_str());
            return Err(K1FixError::Step(m));
        },
        None => {},
    }
    if !has_step_header(bytes) {
        return Err(K1FixError::Step(String::from_str("not a STEP file (missing ISO-10303 header)")));
    }
    Ok(())
}

/// `CARTESIAN_POINT`.
pub open spec fn cartesian_point_word() -> Seq<u8> {
    seq![67u8, 65u8, 82u8, 84u8, 69u8, 83u8, 73u8, 65u8, 78u8, 95u8, 80u8, 79u8, 73u8, 78u8, 84u8]
}

/// Position of the last byte `x` among the first `n` bytes of `b`.
pub open spec fn last_byte_before(b: Seq<u8>, x: u8, n: int) -> Option<int>
    decreases n,
{
    if n <= 0 {
        None
    } else if b[n - 1] == x {
        Some(n - 1)
    } else {
        last_byte_before(b, x, n - 1)
    }
}

/// Where the field of `s` that starts at `i` ends: at the next `,`, or at
/// the end of `s`.
pub open spec fn field_end(s: Seq<u8>, i: int) -> int
    decreases s.len() - i,
{
    if i >= s.len() {
        s.len() as int
    } else if s[i] == 44u8 {
        i
    } else {
        field_end(s, i + 1)
    }
}

/// A field ends within the text, at a `,` or at its end.
pub proof fn lemma_field_end(s: Seq<u8>, i: int)
    requires
        0 <= i <= s.len(),
    ensures
        i <= field_end(s, i) <= s.len(),
        field_end(s, i) < s.len() ==> s[field_end(s, i)] == 44u8,
    decreases s.len() - i,
{
    if i < s.len() && s[i] != 44u8 {
        lemma_field_end(s, i + 1);
    }
}

/// The `,`-separated fields of `s` from position `i` on (`i` at the start
/// of a field).
pub open spec fn fields_from(s: Seq<u8>, i: int) -> Seq<Seq<u8>>
    decreases s.len() - i,
{
    if i < 0 || i > s.len() {
        Seq::empty()
    } else {
        proof {
            lemma_field_end(s, i);
        }
        let e = field_end(s, i);
        if e < s.len() {
            seq![s.subrange(i, e)] + fields_from(s, e + 1)
        } else {
            seq![s.subrange(i, e)]
        }
    }
}

/// The `,`-separated fields between the last `(` and the last `)` of a
/// statement, where that `)` comes after that `(`; nothing otherwise.
pub open spec fn paren_fields_of(b: Seq<u8>) -> Option<Seq<Seq<u8>>> {
    let open = last_byte_before(b, 40u8, b.len() as int);
    let close = last_byte_before(b, 41u8, b.len() as int);
    if open is Some && close is Some && close->0 > open->0 {
        Some(fields_from(b.subrange(open->0 + 1, close->0), 0))
    } else {
        None
    }
}

fn last_byte(b: &[u8], x: u8) -> (r: Option<usize>)
    ensures
        match r {
            Some(k) => last_byte_before(b@, x, b@.len() as int) == Some(k as int),
            None => last_byte_before(b@, x, b@.len() as int) is None,
        },
        r matches Some(k) ==> k < b@.len(),
{
    let mut n = b.len();
    while n > 0
        invariant
            n <= b@.len(),
            last_byte_before(b@, x, b@.len() as int) == last_byte_before(b@, x, n as int),
        decreases n,
    {
        if b[n - 1] == x {
            return Some(n - 1);
        }
        n = n - 1;
    }
    None
}

/// The fields of the last parenthesised list of a statement (see
/// [`paren_fields_of`]): for a `CARTESIAN_POINT`, the texts of its
/// coordinates, which are left to the caller to read as numbers.
pub fn paren_fields(statement: &[u8]) -> (r: Option<Vec<Vec<u8>>>)
    ensures
        match paren_fields_of(statement@) {
            Some(fs) => r matches Some(v) && v@.map_values(|f: Vec<u8>| f@) == fs,
            None => r is None,
        },
{
    let st = match last_byte(statement, 40u8) {
        Some(k) => k,
        None => {
            return None;
        },
    };
    let en = match last_byte(statement, 41u8) {
        Some(k) => k,
        None => {
            return None;
        },
    };
    if en <= st {
        return None;
    }
    let inner = slice_subrange(statement, st + 1, en);
    let ghost s = inner@;
    let n = inner.len();
    let mut out: Vec<Vec<u8>> = Vec::new();
    let mut i: usize = 0;
    let mut done = false;
    while !done
        invariant
            s == inner@,
            n == s.len(),
            i <= n,
            !done ==> out@.map_values(|f: Vec<u8>| f@) + fields_from(s, i as int) == fields_from(s, 0),
            done ==> out@.map_values(|f: Vec<u8>| f@) == fields_from(s, 0),
        decreases n - i + (if done { 0int } else { 1int }),
    {
        let mut e = i;
        while e < n && inner[e] != 44u8
            invariant
                i <= e <= n,
                n == s.len(),
                s == inner@,
                field_end(s, i as int) == field_end(s, e as int),
            decreases n - e,
        {
            e = e + 1;
        }
        let field = slice_to_vec(slice_subrange(inner, i, e));
        let ghost before = out@.map_values(|f: Vec<u8>| f@);
        out.push(field);
        proof {
            assert(field_end(s, e as int) == e);
            assert(out@.map_values(|f: Vec<u8>| f@) =~= before.push(s.subrange(i as int, e as int)));
        }
        if e < n {
            proof {
                assert(fields_from(s, i as int) == seq![s.subrange(i as int, e as int)] + fields_from(s, e + 1));
                assert(before + fields_from(s, i as int) =~= out@.map_values(|f: Vec<u8>| f@) + fields_from(s, e + 1));
            }
            i = e + 1;
        } else {
            proof {
                assert(fields_from(s, i as int) == seq![s.subrange(i as int, e as int)]);
                assert(before + fields_from(s, i as int) =~= out@.map_values(|f: Vec<u8>| f@));
            }
            i = e;
            done = true;
        }
    }
    proof {
        assert(statement@.subrange(st + 1, en as int) =~= s);
    }
    Some(out)
}

/// The id and text of a statement that names `CARTESIAN_POINT` (in any
/// case) and starts with an entity id; nothing for any other statement.
pub open spec fn point_statement_of(c: Seq<u8>) -> Seq<(i64, Seq<u8>)> {
    if contains_word(c, cartesian_point_word(), true) && entity_id(c) is Some {
        seq![(entity_id(c)->0, c)]
    } else {
        Seq::empty()
    }
}

/// The `CARTESIAN_POINT` statements of `t` with their entity ids, in order.
pub open spec fn point_statements(t: Seq<u8>) -> Seq<(i64, Seq<u8>)> {
    per_statement(t, 0, |c: Seq<u8>| point_statement_of(c))
}

/// The `CARTESIAN_POINT` statements of the text, each with its entity id;
/// reading their coordinates is left to the caller.
pub fn cartesian_point_statements(text: &[u8]) -> (r: Vec<(i64, Vec<u8>)>)
    ensures
        r@.map_values(|p: (i64, Vec<u8>)| (p.0, p.1@)) == point_statements(text@),
{
    let word: [u8; 15] = [67, 65, 82, 84, 69, 83, 73, 65, 78, 95, 80, 79, 73, 78, 84];
    proof {
        assert(word@ =~= cartesian_point_word());
    }
    let ghost f = |c: Seq<u8>| point_statement_of(c);
    let mut out: Vec<(i64, Vec<u8>)> = Vec::new();
    let mut start: usize = 0;
    loop
        invariant
            start <= text@.len(),
            word@ == cartesian_point_word(),
            f == (|c: Seq<u8>| point_statement_of(c)),
            out@.map_values(|p: (i64, Vec<u8>)| (p.0, p.1@)) + per_statement(text@, start as int, f)
                == point_statements(text@),
        decreases text@.len() - start,
    {
        let end = find_statement_end(text, start);
        proof {
            lemma_statement_end(text@, start as int);
        }
        let chunk = &text[start..end];
        let ghost before = out@;
        if has_word(chunk, &word, true) {
            match parse_entity_id(chunk) {
                Some(id) => {
                    out.push((id, vstd::slice::slice_to_vec(chunk)));
                },
                None => {},
            }
        }
        proof {
            assert(chunk@ =~= text@.subrange(start as int, end as int));
            assert(out@.map_values(|p: (i64, Vec<u8>)| (p.0, p.1@)) =~= before.map_values(
                |p: (i64, Vec<u8>)| (p.0, p.1@),
            ) + f(chunk@));
        }
        if end >= text.len() {
            proof {
                assert(out@.map_values(|p: (i64, Vec<u8>)| (p.0, p.1@)) =~= point_statements(text@));
            }
            return out;
        }
        proof {
            assert(before.map_values(|p: (i64, Vec<u8>)| (p.0, p.1@)) + (f(chunk@) + per_statement(
                text@,
                end + 1,
                f,
            )) =~= out@.map_values(|p: (i64, Vec<u8>)| (p.0, p.1@)) + per_statement(
                text@,
                end + 1,
                f,
            ));
        }
        start = end + 1;
    }
}

/// Every id of `s` is smaller than the ids after it.
pub open spec fn strictly_increasing(s: Seq<i64>) -> bool {
    forall|i: int, j: int| 0 <= i < j < s.len() ==> s[i] < s[j]
}

/// `order` lists each id of `ids` once, in ascending order.
pub open spec fn is_dense_order(order: Seq<i64>, ids: Seq<i64>) -> bool {
    &&& strictly_increasing(order)
    &&& forall|x: i64| order.contains(x) <==> ids.contains(x)
}

/// The vertex index of each id of `order`: its position there.
pub open spec fn dense_map(order: Seq<i64>) -> Map<i64, u32> {
    Map::new(|x: i64| order.contains(x), |x: i64| order.index_of(x) as u32)
}

/// The vertex indices of the references in `refs` that `dense` numbers, in
/// order; the others are left out.
pub open spec fn mapped_refs(refs: Seq<i64>, dense: Map<i64, u32>) -> Seq<u32>
    decreases refs.len(),
{
    if refs.len() == 0 {
        Seq::empty()
    } else {
        let rest = mapped_refs(refs.drop_last(), dense);
        if dense.contains_key(refs.last()) {
            rest.push(dense[refs.last()])
        } else {
            rest
        }
    }
}

/// The fan of triangles over the polygon `m`: `[m0, m(i), m(i+1)]` for each
/// `i` from 1 to `len - 2`; nothing for fewer than three vertices.
pub open spec fn fan(m: Seq<u32>) -> Seq<[u32; 3]> {
    if m.len() >= 3 {
        Seq::new((m.len() - 2) as nat, |i: int| [m[0], m[i + 1], m[i + 2]])
    } else {
        Seq::empty()
    }
}

/// The triangles of one `POLY_LOOP`: the fan over its numbered references.
pub open spec fn loop_triangles(refs: Seq<i64>, dense: Map<i64, u32>) -> Seq<[u32; 3]> {
    fan(mapped_refs(refs, dense))
}

/// The triangles of a list of `POLY_LOOP`s, concatenated in order.
pub open spec fn loops_triangles(loops: Seq<Seq<i64>>, dense: Map<i64, u32>) -> Seq<[u32; 3]>
    decreases loops.len(),
{
    if loops.len() == 0 {
        Seq::empty()
    } else {
        loops_triangles(loops.drop_last(), dense) + loop_triangles(loops.last(), dense)
    }
}

/// The triangle of an explicit triangle statement when `dense` numbers all
/// three of its references; nothing otherwise.
pub open spec fn ref_triangle(t: [i64; 3], dense: Map<i64, u32>) -> Seq<[u32; 3]> {
    if dense.contains_key(t[0]) && dense.contains_key(t[1]) && dense.contains_key(t[2]) {
        seq![[dense[t[0]], dense[t[1]], dense[t[2]]]]
    } else {
        Seq::empty()
    }
}

/// The triangles of a list of explicit triangle statements, in order.
pub open spec fn refs_triangles(ts: Seq<[i64; 3]>, dense: Map<i64, u32>) -> Seq<[u32; 3]>
    decreases ts.len(),
{
    if ts.len() == 0 {
        Seq::empty()
    } else {
        refs_triangles(ts.drop_last(), dense) + ref_triangle(ts.last(), dense)
    }
}

/// All triangles of STEP text `t` under the numbering `dense`: those of the
/// `POLY_LOOP` statements, then those of the triangle statements.
pub open spec fn step_triangles(t: Seq<u8>, dense: Map<i64, u32>) -> Seq<[u32; 3]> {
    loops_triangles(poly_loops(t), dense) + refs_triangles(explicit_triangle_refs(t), dense)
}

proof fn lemma_index_of_increasing(s: Seq<i64>, k: int)
    requires
        strictly_increasing(s),
        0 <= k < s.len(),
    ensures
        s.index_of(s[k]) == k,
{
    assert(s[k] == s[k]);
    let i = s.index_of(s[k]);
    if i < k {
        assert(s[i] < s[k]);
    } else if i > k {
        assert(s[k] < s[i]);
    }
}

/// The ids of `point_ids`, each once, ascending.
fn dense_order(point_ids: &[i64]) -> (order: Vec<i64>)
    ensures
        is_dense_order(order@, point_ids@),
        order@.len() <= point_ids@.len(),
{
    let mut sorted: Vec<i64> = vstd::slice::slice_to_vec(point_ids);
    let ghost unsorted = sorted@;
    sort_ids(&mut sorted);
    proof {
        sorted@.to_multiset_ensures();
        unsorted.to_multiset_ensures();
        assert forall|x: i64| sorted@.contains(x) <==> point_ids@.contains(x) by {
            assert(sorted@.contains(x) <==> sorted@.to_multiset().count(x) > 0);
            assert(unsorted.contains(x) <==> unsorted.to_multiset().count(x) > 0);
        }
    }
    let mut order: Vec<i64> = Vec::new();
    let mut i: usize = 0;
    while i < sorted.len()
        invariant
            i <= sorted@.len(),
            forall|a: int, b: int| 0 <= a <= b < sorted@.len() ==> sorted@[a] <= sorted@[b],
            strictly_increasing(order@),
            order@.len() <= i,
            i > 0 ==> order@.len() > 0 && order@.last() == sorted@[i - 1],
            forall|x: i64| order@.contains(x) <==> sorted@.subrange(0, i as int).contains(x),
        decreases sorted@.len() - i,
    {
        let x = sorted[i];
        let ghost prev = order@;
        let n = order.len();
        if n == 0 || order[n - 1] != x {
            proof {
                if n > 0 {
                    assert(sorted@[i - 1] <= x);
                    assert forall|a: int| 0 <= a < n implies prev[a] < x by {
                        if a < n - 1 {
                            assert(prev[a] < prev[n - 1]);
                        }
                    }
                }
            }
            order.push(x);
            proof {
                assert forall|a: int, b: int| 0 <= a < b < order@.len() implies order@[a]
                    < order@[b] by {
                    if b == n {
                        assert(order@[a] == prev[a]);
                    }
                }
            }
        }
        proof {
            let s0 = sorted@.subrange(0, i as int);
            let s1 = sorted@.subrange(0, i + 1);
            assert(s1 =~= s0.push(x));
            assert forall|y: i64| order@.contains(y) <==> s1.contains(y) by {
                if s1.contains(y) {
                    let w = choose|w: int| 0 <= w < s1.len() && s1[w] == y;
                    if w < i {
                        assert(s0[w] == y);
                        assert(s0.contains(y));
                        assert(prev.contains(y));
                        let v = choose|v: int| 0 <= v < prev.len() && prev[v] == y;
                        assert(order@[v] == y);
                    } else {
                        assert(y == x);
                        if order@.len() == prev.len() + 1 {
                            assert(order@[prev.len() as int] == y);
                        } else {
                            assert(order@[n - 1] == y);
                        }
                    }
                }
                if order@.contains(y) {
                    let v = choose|v: int| 0 <= v < order@.len() && order@[v] == y;
                    if v < prev.len() {
                        assert(prev[v] == y);
                        assert(prev.contains(y));
                        assert(s0.contains(y));
                        let w = choose|w: int| 0 <= w < s0.len() && s0[w] == y;
                        assert(s1[w] == y);
                    } else {
                        assert(s1[i as int] == y);
                    }
                }
            }
        }
        i = i + 1;
    }
    proof {
        assert(sorted@.subrange(0, sorted@.len() as int) =~= sorted@);
    }
    order
}

/// Appends the triangles of one `POLY_LOOP` with references `caps`.
fn push_loop_triangles(caps: &Vec<i64>, dense: &DenseIds, out: &mut Vec<[u32; 3]>)
    ensures
        final(out)@ == old(out)@ + loop_triangles(caps@, dense_ids_contents(*dense)),
{
    let ghost d = dense_ids_contents(*dense);
    if caps.len() == 3 {
        let a = dense.get(caps[0]);
        let b = dense.get(caps[1]);
        let c = dense.get(caps[2]);
        proof {
            let s = caps@;
            assert(s.drop_last().drop_last().drop_last().len() == 0);
            assert(s.drop_last().drop_last().last() == s[0]);
            assert(s.drop_last().last() == s[1]);
            assert(s.last() == s[2]);
            reveal_with_fuel(mapped_refs, 4);
        }
        match (a, b, c) {
            (Some(a), Some(b), Some(c)) => {
                out.push([a, b, c]);
                proof {
                    assert(mapped_refs(caps@, d) =~= seq![a, b, c]);
                    assert(fan(seq![a, b, c]) =~= seq![[a, b, c]]);
                }
            },
            _ => {
                proof {
                    assert(mapped_refs(caps@, d).len() < 3);
                    assert(out@ =~= old(out)@ + loop_triangles(caps@, d));
                }
            },
        }
    } else if caps.len() > 3 {
        let mut mapped: Vec<u32> = Vec::new();
        let mut i: usize = 0;
        while i < caps.len()
            invariant
                i <= caps@.len(),
                d == dense_ids_contents(*dense),
                mapped@ == mapped_refs(caps@.subrange(0, i as int), d),
            decreases caps@.len() - i,
        {
            proof {
                assert(caps@.subrange(0, i + 1).drop_last() =~= caps@.subrange(0, i as int));
            }
            match dense.get(caps[i]) {
                Some(v) => mapped.push(v),
                None => {},
            }
            i = i + 1;
        }
        proof {
            assert(caps@.subrange(0, caps@.len() as int) =~= caps@);
        }
        if mapped.len() >= 3 {
            let ghost before = out@;
            let last = mapped.len() - 1;
            let mut k: usize = 1;
            while k < last
                invariant
                    1 <= k <= last,
                    last + 1 == mapped@.len(),
                    mapped@.len() >= 3,
                    out@ == before + fan(mapped@).subrange(0, k - 1),
                decreases last - k,
            {
                let t = [mapped[0], mapped[k], mapped[k + 1]];
                proof {
                    assert(fan(mapped@)[k - 1] == t);
                    assert(fan(mapped@).subrange(0, k as int) =~= fan(mapped@).subrange(0, k - 1).push(t));
                }
                out.push(t);
                k = k + 1;
            }
            proof {
                assert(fan(mapped@).subrange(0, k - 1) =~= fan(mapped@));
            }
        } else {
            proof {
                assert(out@ =~= old(out)@ + loop_triangles(caps@, d));
            }
        }
    } else {
        proof {
            let s = caps@;
            reveal_with_fuel(mapped_refs, 4);
            if s.len() == 2 {
                assert(s.drop_last().drop_last().len() == 0);
            } else if s.len() == 1 {
                assert(s.drop_last().len() == 0);
            }
            assert(mapped_refs(s, d).len() < 3);
            assert(out@ =~= old(out)@ + loop_triangles(caps@, d));
        }
    }
}

/// Rebuilds the triangle list of faceted STEP text.
///
/// `point_ids` are the ids of the `CARTESIAN_POINT` statements whose
/// coordinates were read. They are numbered densely in ascending order;
/// that order is returned with the triangles of the `POLY_LOOP` statements
/// (fanned out, references to unknown points left out) followed by those of
/// the triangle statements (kept when all three references are known).
pub fn rebuild_mesh(text: &[u8], point_ids: &[i64]) -> (r: Result<(Vec<i64>, Vec<[u32; 3]>), K1FixError>)
    requires
        point_ids@.len() <= u32::MAX,
    ensures
        match r {
            Ok((order, tris)) => {
                &&& point_ids@.len() > 0
                &&& is_dense_order(order@, point_ids@)
                &&& tris@ == step_triangles(text@, dense_map(order@))
                &&& tris@.len() > 0
            },
            Err(K1FixError::Step(m)) => if point_ids@.len() == 0 {
                m@ == "no CARTESIAN_POINT entities found"@
            } else {
                &&& m@ == "STEP B-rep has no extractable triangular facets; export as STL/3MF or use a faceted STEP"@
                &&& forall|order: Seq<i64>|
                    is_dense_order(order, point_ids@) ==> step_triangles(text@, dense_map(order)).len() == 0
            },
            Err(_) => false,
        },
{
    if point_ids.len() == 0 {
        return Err(K1FixError::Step(String::from_str("no CARTESIAN_POINT entities found")));
    }
    let order = dense_order(point_ids);
    let mut dense = DenseIds::new();
    let mut k: usize = 0;
    while k < order.len()
        invariant
            k <= order@.len(),
            order@.len() <= u32::MAX,
            strictly_increasing(order@),
            forall|x: i64|
                #[trigger] dense_ids_contents(dense).contains_key(x) <==> order@.subrange(
                    0,
                    k as int,
                ).contains(x),
            forall|j: int| 0 <= j < k ==> dense_ids_contents(dense)[#[trigger] order@[j]] == j,
        decreases order@.len() - k,
    {
        let ghost prev = dense_ids_contents(dense);
        dense.insert(order[k], k as u32);
        proof {
            let s0 = order@.subrange(0, k as int);
            let s1 = order@.subrange(0, k + 1);
            assert(s1 =~= s0.push(order@[k as int]));
            assert forall|x: i64| #[trigger] dense_ids_contents(dense).contains_key(x) <==> s1.contains(x) by {
                if s1.contains(x) && x != order@[k as int] {
                    let w = choose|w: int| 0 <= w < s1.len() && s1[w] == x;
                    assert(s0[w] == x);
                    assert(s0.contains(x));
                    assert(prev.contains_key(x));
                }
                if dense_ids_contents(dense).contains_key(x) {
                    if x == order@[k as int] {
                        assert(s1[k as int] == x);
                    } else {
                        assert(prev.contains_key(x));
                        assert(s0.contains(x));
                        let w = choose|w: int| 0 <= w < s0.len() && s0[w] == x;
                        assert(s1[w] == x);
                    }
                }
            }
            assert forall|j: int| 0 <= j < k + 1 implies dense_ids_contents(dense)[#[trigger] order@[j]] == j by {
                if j < k {
                    assert(order@[j] < order@[k as int]);
                }
            }
        }
        k = k + 1;
    }
    let ghost d = dense_ids_contents(dense);
    proof {
        assert(order@.subrange(0, order@.len() as int) =~= order@);
        assert forall|x: i64| #[trigger] d.contains_key(x) <==> dense_map(order@).contains_key(x) by {}
        assert forall|x: i64| #[trigger] d.contains_key(x) implies d[x] == dense_map(order@)[x] by {
            let w = choose|w: int| 0 <= w < order@.len() && order@[w] == x;
            lemma_index_of_increasing(order@, w);
        }
        assert(d =~= dense_map(order@));
    }

    let loops = poly_loop_captures(text);
    let ghost loop_refs = loops@.map_values(|v: Vec<i64>| v@);
    let mut tris: Vec<[u32; 3]> = Vec::new();
    let mut li: usize = 0;
    while li < loops.len()
        invariant
            li <= loops@.len(),
            loop_refs == loops@.map_values(|v: Vec<i64>| v@),
            d == dense_ids_contents(dense),
            tris@ == loops_triangles(loop_refs.subrange(0, li as int), d),
        decreases loops@.len() - li,
    {
        proof {
            assert(loop_refs.subrange(0, li + 1).drop_last() =~= loop_refs.subrange(0, li as int));
        }
        push_loop_triangles(&loops[li], &dense, &mut tris);
        li = li + 1;
    }
    proof {
        assert(loop_refs.subrange(0, loops@.len() as int) =~= loop_refs);
    }
    let ghost from_loops = tris@;

    let refs = explicit_triangles(text);
    let mut ti: usize = 0;
    while ti < refs.len()
        invariant
            ti <= refs@.len(),
            d == dense_ids_contents(dense),
            tris@ == from_loops + refs_triangles(refs@.subrange(0, ti as int), d),
        decreases refs@.len() - ti,
    {
        let t = refs[ti];
        proof {
            assert(refs@.subrange(0, ti + 1).drop_last() =~= refs@.subrange(0, ti as int));
        }
        let ghost before = tris@;
        match (dense.get(t[0]), dense.get(t[1]), dense.get(t[2])) {
            (Some(a), Some(b), Some(c)) => {
                tris.push([a, b, c]);
            },
            _ => {},
        }
        proof {
            assert(tris@ =~= before + ref_triangle(t, d));
        }
        ti = ti + 1;
    }
    proof {
        assert(refs@.subrange(0, refs@.len() as int) =~= refs@);
        assert(tris@ =~= step_triangles(text@, dense_map(order@)));
    }
    if tris.len() == 0 {
        proof {
            assert forall|o: Seq<i64>| is_dense_order(o, point_ids@) implies step_triangles(
                text@,
                dense_map(o),
            ).len() == 0 by {
                lemma_dense_order_unique(o, order@, point_ids@);
            }
        }
        return Err(
            K1FixError::Step(
                String::from_str(
                    "STEP B-rep has no extractable triangular facets; export as STL/3MF or use a faceted STEP",
                ),
            ),
        );
    }
    Ok((order, tris))
}

/// Two ascending lists of the ids of `ids` are the same list.
pub proof fn lemma_dense_order_unique(a: Seq<i64>, b: Seq<i64>, ids: Seq<i64>)
    requires
        is_dense_order(a, ids),
        is_dense_order(b, ids),
    ensures
        a == b,
    decreases a.len() + b.len(),
{
    if a.len() == 0 || b.len() == 0 {
        if a.len() > 0 {
            assert(a.contains(a[0]));
            assert(b.contains(a[0]));
        }
        if b.len() > 0 {
            assert(b.contains(b[0]));
            assert(a.contains(b[0]));
        }
        assert(a =~= b);
    } else {
        let (la, lb) = (a.last(), b.last());
        assert(a.contains(la));
        assert(b.contains(lb));
        assert(b.contains(la));
        assert(a.contains(lb));
        let ia = choose|i: int| 0 <= i < a.len() && a[i] == lb;
        let ib = choose|i: int| 0 <= i < b.len() && b[i] == la;
        if ia < a.len() - 1 {
            assert(a[ia] < a[a.len() - 1]);
        }
        if ib < b.len() - 1 {
            assert(b[ib] < b[b.len() - 1]);
        }
        assert(la == lb);
        let ids2 = a.drop_last();
        assert forall|x: i64| a.drop_last().contains(x) <==> b.drop_last().contains(x) by {
            if a.drop_last().contains(x) {
                let i = choose|i: int| 0 <= i < a.len() - 1 && a[i] == x;
                assert(a[i] < la);
                assert(b.contains(x));
                let j = choose|j: int| 0 <= j < b.len() && b[j] == x;
                assert(j != b.len() - 1);
                assert(b.drop_last()[j] == x);
            }
            if b.drop_last().contains(x) {
                let j = choose|j: int| 0 <= j < b.len() - 1 && b[j] == x;
                assert(b[j] < lb);
                assert(a.contains(x));
                let i = choose|i: int| 0 <= i < a.len() && a[i] == x;
                assert(i != a.len() - 1);
                assert(a.drop_last()[i] == x);
            }
        }
        lemma_dense_order_unique(a.drop_last(), b.drop_last(), ids2);
        assert(a =~= a.drop_last().push(la));
        assert(b =~= b.drop_last().push(lb));
    }
}

/// Every index of `dense` is below `bound`.
pub open spec fn values_below(dense: Map<i64, u32>, bound: int) -> bool {
    forall|x: i64| #[trigger] dense.contains_key(x) ==> dense[x] < bound
}

proof fn lemma_mapped_below(refs: Seq<i64>, dense: Map<i64, u32>, bound: int)
    requires
        values_below(dense, bound),
    ensures
        forall|i: int| 0 <= i < mapped_refs(refs, dense).len() ==> #[trigger] mapped_refs(refs, dense)[i] < bound,
    decreases refs.len(),
{
    if refs.len() > 0 {
        lemma_mapped_below(refs.drop_last(), dense, bound);
        let rest = mapped_refs(refs.drop_last(), dense);
        let m = mapped_refs(refs, dense);
        assert forall|i: int| 0 <= i < m.len() implies #[trigger] m[i] < bound by {
            if i < rest.len() {
                assert(m[i] == rest[i]);
            } else {
                assert(dense.contains_key(refs.last()));
                assert(m[i] == dense[refs.last()]);
            }
        }
    }
}

proof fn lemma_loops_below(loops: Seq<Seq<i64>>, dense: Map<i64, u32>, bound: int)
    requires
        values_below(dense, bound),
    ensures
        indices_below(loops_triangles(loops, dense), bound),
    decreases loops.len(),
{
    if loops.len() > 0 {
        lemma_loops_below(loops.drop_last(), dense, bound);
        let m = mapped_refs(loops.last(), dense);
        lemma_mapped_below(loops.last(), dense, bound);
        let rest = loops_triangles(loops.drop_last(), dense);
        let here = loop_triangles(loops.last(), dense);
        assert forall|i: int, c: int| 0 <= i < here.len() && 0 <= c < 3 implies (#[trigger] here[i][c]) < bound by {
            assert(here[i] == [m[0], m[i + 1], m[i + 2]]);
        }
        assert forall|i: int, c: int| 0 <= i < (rest + here).len() && 0 <= c < 3 implies (#[trigger] (rest + here)[i][c]) < bound by {
            if i < rest.len() {
                assert((rest + here)[i] == rest[i]);
            } else {
                assert((rest + here)[i] == here[i - rest.len()]);
            }
        }
    }
}

proof fn lemma_refs_below(ts: Seq<[i64; 3]>, dense: Map<i64, u32>, bound: int)
    requires
        values_below(dense, bound),
    ensures
        indices_below(refs_triangles(ts, dense), bound),
    decreases ts.len(),
{
    if ts.len() > 0 {
        lemma_refs_below(ts.drop_last(), dense, bound);
        let rest = refs_triangles(ts.drop_last(), dense);
        let here = ref_triangle(ts.last(), dense);
        assert forall|i: int, c: int| 0 <= i < (rest + here).len() && 0 <= c < 3 implies (#[trigger] (rest + here)[i][c]) < bound by {
            if i < rest.len() {
                assert((rest + here)[i] == rest[i]);
            } else {
                assert((rest + here)[i] == here[i - rest.len()]);
            }
        }
    }
}

/// Reads faceted STEP text as a mesh: checks the text (see
/// [`check_step_text`]), then rebuilds its triangles over the points whose
/// coordinates were read, `point_ids` (see [`rebuild_mesh`]). Every index of
/// the triangles is below the number of points.
pub fn step_mesh(text: &[u8], point_ids: &[i64]) -> (r: Result<(Vec<i64>, Vec<[u32; 3]>), K1FixError>)
    requires
        point_ids@.len() <= u32::MAX,
    ensures
        !is_step_text(text@) ==> match r {
            Err(K1FixError::Step(m)) => match utf8_error(text@) {
                Some(e) => m@ == "STEP is not UTF-8: "@ + e,
                None => m@ == "not a STEP file (missing ISO-10303 header)"@,
            },
            _ => false,
        },
        is_step_text(text@) ==> match r {
            Ok((order, tris)) => {
                &&& point_ids@.len() > 0
                &&& is_dense_order(order@, point_ids@)
                &&& tris@ == step_triangles(text@, dense_map(order@))
                &&& tris@.len() > 0
                &&& indices_below(tris@, order@.len() as int)
            },
            Err(K1FixError::Step(m)) => if point_ids@.len() == 0 {
                m@ == "no CARTESIAN_POINT entities found"@
            } else {
                &&& m@ == "STEP B-rep has no extractable triangular facets; export as STL/3MF or use a faceted STEP"@
                &&& forall|order: Seq<i64>|
                    is_dense_order(order, point_ids@) ==> step_triangles(text@, dense_map(order)).len() == 0
            },
            Err(_) => false,
        },
{
    match check_step_text(text) {
        Err(e) => Err(e),
        Ok(()) => {
            let r = rebuild_mesh(text, point_ids);
            proof {
                if r is Ok {
                    lemma_step_triangles_in_range(text@, r->Ok_0.0@);
                }
            }
            r
        },
    }
}

/// The rebuilt triangles only use vertices that exist: every index is below
/// the number of numbered points.
pub proof fn lemma_step_triangles_in_range(text: Seq<u8>, order: Seq<i64>)
    requires
        strictly_increasing(order),
    ensures
        indices_below(step_triangles(text, dense_map(order)), order.len() as int),
{
    let d = dense_map(order);
    assert forall|x: i64| #[trigger] d.contains_key(x) implies d[x] < order.len() by {
        let w = choose|w: int| 0 <= w < order.len() && order[w] == x;
        lemma_index_of_increasing(order, w);
    }
    lemma_loops_below(poly_loops(text), d, order.len() as int);
    lemma_refs_below(explicit_triangle_refs(text), d, order.len() as int);
    let a = loops_triangles(poly_loops(text), d);
    let b = refs_triangles(explicit_triangle_refs(text), d);
    assert forall|i: int, c: int| 0 <= i < (a + b).len() && 0 <= c < 3 implies (#[trigger] (a + b)[i][c]) < order.len() by {
        if i < a.len() {
            assert((a + b)[i] == a[i]);
        } else {
            assert((a + b)[i] == b[i - a.len()]);
        }
    }
}

} // verus!
