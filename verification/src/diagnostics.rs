//! Diagnostic identifiers, findings, severities and the index-level checks.
use crate::text::{decimal, push_decimal};
use crate::topology::{
    boundary_edge_set, edge_incidence, face_connected_components, is_component_list,
    nonmanifold_edge_set, EdgeMap, MeshIndices,
};
use crate::repair::distinct_indices;
use vstd::prelude::*;
use vstd::string::*;

verus! {

/// Stable diagnostic identifier.
#[derive(Debug, Clone, Copy, PartialEq, Eq, Hash, Structural)]
pub enum CheckId {
    Fit001,
    Fit002,
    Fit003,
    Fit004,
    Mesh001,
    Mesh002,
    Mesh003,
    Mesh004,
    Mesh005,
    Mesh006,
    Mesh007,
    Prt001,
    Prt002,
    Prt003,
    Prt004,
    Prt005,
}

/// Wire name of a check id.
pub open spec fn check_id_name(id: CheckId) -> Seq<char> {
    match id {
        CheckId::Fit001 => "FIT001"@,
        CheckId::Fit002 => "FIT002"@,
        CheckId::Fit003 => "FIT003"@,
        CheckId::Fit004 => "FIT004"@,
        CheckId::Mesh001 => "MESH001"@,
        CheckId::Mesh002 => "MESH002"@,
        CheckId::Mesh003 => "MESH003"@,
        CheckId::Mesh004 => "MESH004"@,
        CheckId::Mesh005 => "MESH005"@,
        CheckId::Mesh006 => "MESH006"@,
        CheckId::Mesh007 => "MESH007"@,
        CheckId::Prt001 => "PRT001"@,
        CheckId::Prt002 => "PRT002"@,
        CheckId::Prt003 => "PRT003"@,
        CheckId::Prt004 => "PRT004"@,
        CheckId::Prt005 => "PRT005"@,
    }
}

impl CheckId {
    /// Wire format used in JSON reports.
    pub fn as_str(self) -> (r: &'static str)
        ensures
            r@ == check_id_name(self),
    {
        match self {
            CheckId::Fit001 => "FIT001",
            CheckId::Fit002 => "FIT002",
            CheckId::Fit003 => "FIT003",
            CheckId::Fit004 => "FIT004",
            CheckId::Mesh001 => "MESH001",
            CheckId::Mesh002 => "MESH002",
            CheckId::Mesh003 => "MESH003",
            CheckId::Mesh004 => "MESH004",
            CheckId::Mesh005 => "MESH005",
            CheckId::Mesh006 => "MESH006",
            CheckId::Mesh007 => "MESH007",
            CheckId::Prt001 => "PRT001",
            CheckId::Prt002 => "PRT002",
            CheckId::Prt003 => "PRT003",
            CheckId::Prt004 => "PRT004",
            CheckId::Prt005 => "PRT005",
        }
    }

    /// The wire name as an owned string (what displaying the id prints).
    pub fn label(self) -> (r: String)
        ensures
            r@ == check_id_name(self),
    {
        String::from_str(self.as_str())
    }
}

/// Finding severity.
#[derive(Debug, Clone, Copy, PartialEq, Eq, Structural)]
pub enum Severity {
    Info,
    Warning,
    Error,
}

/// Rank of a severity: info below warning below error.
pub open spec fn severity_rank(s: Severity) -> nat {
    match s {
        Severity::Info => 0,
        Severity::Warning => 1,
        Severity::Error => 2,
    }
}

/// A single diagnostic finding.
#[derive(Debug, Clone)]
pub struct Finding {
    /// Stable id.
    pub id: String,
    /// Severity.
    pub severity: Severity,
    /// Human message.
    pub message: String,
}

impl Finding {
    /// Construct a finding from a check id.
    pub fn new(id: CheckId, severity: Severity, message: String) -> (r: Finding)
        ensures
            r.id@ == check_id_name(id),
            r.severity == severity,
            r.message@ == message@,
    {
        Finding { id: id.label(), severity, message }
    }
}

/// The highest severity among the findings, `None` when there is none.
pub open spec fn worst_of(findings: Seq<Finding>) -> Option<Severity>
    decreases findings.len(),
{
    if findings.len() == 0 {
        None
    } else {
        let last = findings.last().severity;
        match worst_of(findings.drop_last()) {
            None => Some(last),
            Some(w) => if severity_rank(last) > severity_rank(w) {
                Some(last)
            } else {
                Some(w)
            },
        }
    }
}

/// Highest severity among findings.
pub fn worst_severity(findings: &[Finding]) -> (r: Option<Severity>)
    ensures
        r == worst_of(findings@),
{
    let mut worst: Option<Severity> = None;
    for i in 0..findings.len()
        invariant
            worst == worst_of(findings@.take(i as int)),
    {
        proof {
            assert(findings@.take(i + 1).drop_last() =~= findings@.take(i as int));
        }
        worst = match (worst, findings[i].severity) {
            (None, s) => Some(s),
            (Some(Severity::Error), _) => Some(Severity::Error),
            (Some(Severity::Warning), Severity::Error) => Some(Severity::Error),
            (Some(Severity::Warning), _) => Some(Severity::Warning),
            (Some(Severity::Info), s) => Some(s),
        };
    }
    proof {
        assert(findings@.take(findings@.len() as int) =~= findings@);
    }
    worst
}

/// Process exit code for a worst severity: 0 clean or info, 1 warnings,
/// 2 errors.
pub open spec fn exit_code_of(worst: Option<Severity>) -> i32 {
    match worst {
        None => 0,
        Some(Severity::Info) => 0,
        Some(Severity::Warning) => 1,
        Some(Severity::Error) => 2,
    }
}

/// Map findings to process exit code: 0 clean/info, 1 warnings, 2 errors.
pub fn exit_code_for(findings: &[Finding]) -> (r: i32)
    ensures
        r == exit_code_of(worst_of(findings@)),
{
    match worst_severity(findings) {
        None | Some(Severity::Info) => 0,
        Some(Severity::Warning) => 1,
        Some(Severity::Error) => 2,
    }
}

/// Some finding of `findings` has severity `s`.
pub open spec fn has_severity(findings: Seq<Finding>, s: Severity) -> bool {
    exists|i: int| 0 <= i < findings.len() && #[trigger] findings[i].severity == s
}

/// The worst severity is the highest one present: none for no findings,
/// else a severity that some finding has and that no finding exceeds.
pub proof fn lemma_worst_is_highest(findings: Seq<Finding>)
    ensures
        (worst_of(findings) is None) <==> findings.len() == 0,
        worst_of(findings) matches Some(w) ==> has_severity(findings, w) && forall|i: int|
            0 <= i < findings.len() ==> severity_rank(#[trigger] findings[i].severity)
                <= severity_rank(w),
    decreases findings.len(),
{
    if findings.len() > 0 {
        let rest = findings.drop_last();
        lemma_worst_is_highest(rest);
        let last = findings.last();
        assert(findings[findings.len() - 1] == last);
        match worst_of(rest) {
            None => {},
            Some(w) => {
                assert forall|i: int| 0 <= i < findings.len() implies severity_rank(
                    #[trigger] findings[i].severity,
                ) <= severity_rank(worst_of(findings)->0) by {
                    if i < rest.len() {
                        assert(rest[i] == findings[i]);
                    }
                }
                if severity_rank(last.severity) <= severity_rank(w) {
                    let j = choose|j: int| 0 <= j < rest.len() && #[trigger] rest[j].severity == w;
                    assert(findings[j] == rest[j]);
                }
            },
        }
    }
}

/// The exit code follows the documented table: 2 when some finding is an
/// error, else 1 when some finding is a warning, else 0.
pub proof fn lemma_exit_code_levels(findings: Seq<Finding>)
    ensures
        exit_code_of(worst_of(findings)) == (if has_severity(findings, Severity::Error) {
            2i32
        } else if has_severity(findings, Severity::Warning) {
            1i32
        } else {
            0i32
        }),
{
    lemma_worst_is_highest(findings);
    match worst_of(findings) {
        None => {},
        Some(w) => {
            if has_severity(findings, Severity::Error) {
                let i = choose|i: int| 0 <= i < findings.len() && #[trigger] findings[i].severity == Severity::Error;
                assert(severity_rank(findings[i].severity) <= severity_rank(w));
            } else if has_severity(findings, Severity::Warning) {
                let i = choose|i: int| 0 <= i < findings.len() && #[trigger] findings[i].severity == Severity::Warning;
                assert(severity_rank(findings[i].severity) <= severity_rank(w));
            }
        },
    }
}

/// More findings never lower the exit code: the code of a combined list is
/// the larger of the codes of its parts.
pub proof fn lemma_exit_code_of_concat(a: Seq<Finding>, b: Seq<Finding>)
    ensures
        exit_code_of(worst_of(a + b)) == (if exit_code_of(worst_of(a)) >= exit_code_of(worst_of(b)) {
            exit_code_of(worst_of(a))
        } else {
            exit_code_of(worst_of(b))
        }),
{
    lemma_exit_code_levels(a);
    lemma_exit_code_levels(b);
    lemma_exit_code_levels(a + b);
    let ab = a + b;
    assert forall|s: Severity| has_severity(ab, s) <==> (has_severity(a, s) || has_severity(b, s)) by {
        if has_severity(ab, s) {
            let i = choose|i: int| 0 <= i < ab.len() && #[trigger] ab[i].severity == s;
            if i < a.len() {
                assert(a[i] == ab[i]);
            } else {
                assert(b[i - a.len()] == ab[i]);
            }
        }
        if has_severity(a, s) {
            let i = choose|i: int| 0 <= i < a.len() && #[trigger] a[i].severity == s;
            assert(ab[i] == a[i]);
        }
        if has_severity(b, s) {
            let i = choose|i: int| 0 <= i < b.len() && #[trigger] b[i].severity == s;
            assert(ab[i + a.len()] == b[i]);
        }
    }
}

/// Triangle count above which the too-many-triangles check fires.
pub const EXCESSIVE_TRIANGLE_COUNT: usize = 2000000;

/// `r` is one finding with the given id, severity and message when `fires`,
/// and no finding otherwise.
pub open spec fn reports(r: Seq<Finding>, fires: bool, id: CheckId, severity: Severity, message: Seq<char>) -> bool {
    if fires {
        &&& r.len() == 1
        &&& r[0].id@ == check_id_name(id)
        &&& r[0].severity == severity
        &&& r[0].message@ == message
    } else {
        r.len() == 0
    }
}

fn report_count(fires: bool, id: CheckId, severity: Severity, n: usize, tail: &str) -> (r: Vec<Finding>)
    ensures
        reports(r@, fires, id, severity, decimal(n as nat) + tail@),
{
    if fires {
        let mut message = String::new();
        push_decimal(&mut message, n as u64);
        message.append(tail);
        let mut r = Vec::new();
        r.push(Finding::new(id, severity, message));
        r
    } else {
        Vec::new()
    }
}

/// Number of open (boundary) edges of `tris`.
pub open spec fn open_edge_count(tris: Seq<[u32; 3]>) -> nat {
    boundary_edge_set(edge_incidence(tris)).len()
}

/// Number of non-manifold edges of `tris`.
pub open spec fn nonmanifold_edge_count(tris: Seq<[u32; 3]>) -> nat {
    nonmanifold_edge_set(edge_incidence(tris)).len()
}

/// MESH001: open boundary edges (holes).
pub fn check_open_edges(mesh: &MeshIndices) -> (r: Vec<Finding>)
    requires
        mesh.tris@.len() <= u32::MAX,
    ensures
        reports(
            r@,
            open_edge_count(mesh.tris@) > 0,
            CheckId::Mesh001,
            Severity::Error,
            decimal(open_edge_count(mesh.tris@)) + " open boundary edges (holes)"@,
        ),
{
    let n = EdgeMap::build(mesh).open_edge_count();
    report_count(n > 0, CheckId::Mesh001, Severity::Error, n, " open boundary edges (holes)")
}

/// MESH002: non-manifold edges.
pub fn check_nonmanifold(mesh: &MeshIndices) -> (r: Vec<Finding>)
    requires
        mesh.tris@.len() <= u32::MAX,
    ensures
        reports(
            r@,
            nonmanifold_edge_count(mesh.tris@) > 0,
            CheckId::Mesh002,
            Severity::Error,
            decimal(nonmanifold_edge_count(mesh.tris@)) + " non-manifold edges"@,
        ),
{
    let map = EdgeMap::build(mesh);
    let nm = map.nonmanifold_edges();
    proof {
        nm@.unique_seq_to_set();
        assert(nm@.to_set() =~= nonmanifold_edge_set(map@));
    }
    let n = nm.len();
    report_count(n > 0, CheckId::Mesh002, Severity::Error, n, " non-manifold edges")
}

/// MESH006: more than one face-connected shell.
pub fn check_shells(mesh: &MeshIndices) -> (r: Vec<Finding>)
    requires
        mesh.tris@.len() <= u32::MAX,
    ensures
        exists|comps: Seq<Vec<u32>>|
            is_component_list(comps, mesh.tris@) && reports(
                r@,
                comps.len() > 1,
                CheckId::Mesh006,
                Severity::Info,
                decimal(comps.len()) + " disconnected shells"@,
            ),
{
    let comps = face_connected_components(mesh);
    let n = comps.len();
    let r = report_count(n > 1, CheckId::Mesh006, Severity::Info, n, " disconnected shells");
    proof {
        assert(is_component_list(comps@, mesh.tris@));
    }
    r
}

/// PRT005: too many triangles.
pub fn check_triangle_count(triangle_count: usize) -> (r: Vec<Finding>)
    ensures
        reports(
            r@,
            triangle_count > EXCESSIVE_TRIANGLE_COUNT,
            CheckId::Prt005,
            Severity::Info,
            decimal(triangle_count as nat) + " triangles \u{2014} consider decimation"@,
        ),
{
    report_count(
        triangle_count > EXCESSIVE_TRIANGLE_COUNT,
        CheckId::Prt005,
        Severity::Info,
        triangle_count,
        " triangles \u{2014} consider decimation",
    )
}

/// Triangle `t` is degenerate: it repeats a vertex or its area is flagged
/// as below the threshold.
pub open spec fn degenerate_at(tris: Seq<[u32; 3]>, area_ok: Seq<bool>, i: int) -> bool {
    !distinct_indices(tris[i]) || !area_ok[i]
}

/// Number of degenerate triangles among the first `k`.
pub open spec fn degenerate_count(tris: Seq<[u32; 3]>, area_ok: Seq<bool>, k: nat) -> nat
    decreases k,
{
    if k == 0 {
        0
    } else {
        degenerate_count(tris, area_ok, (k - 1) as nat) + (if degenerate_at(tris, area_ok, k - 1) {
            1nat
        } else {
            0nat
        })
    }
}

proof fn lemma_degenerate_count_bound(tris: Seq<[u32; 3]>, area_ok: Seq<bool>, k: nat)
    ensures
        degenerate_count(tris, area_ok, k) <= k,
    decreases k,
{
    if k > 0 {
        lemma_degenerate_count_bound(tris, area_ok, (k - 1) as nat);
    }
}

/// MESH004: degenerate triangles; `area_ok[i]` tells whether triangle `i`
/// has at least the degenerate-area threshold.
pub fn check_degenerate(mesh: &MeshIndices, area_ok: &Vec<bool>) -> (r: Vec<Finding>)
    requires
        area_ok@.len() == mesh.tris@.len(),
    ensures
        ({
            let n = degenerate_count(mesh.tris@, area_ok@, mesh.tris@.len());
            reports(r@, n > 0, CheckId::Mesh004, Severity::Warning, decimal(n) + " degenerate triangles"@)
        }),
{
    let mut n: usize = 0;
    for i in 0..mesh.tris.len()
        invariant
            area_ok@.len() == mesh.tris@.len(),
            n == degenerate_count(mesh.tris@, area_ok@, i as nat),
    {
        proof {
            lemma_degenerate_count_bound(mesh.tris@, area_ok@, i as nat);
        }
        let t = mesh.tris[i];
        if t[0] == t[1] || t[1] == t[2] || t[0] == t[2] || !area_ok[i] {
            n = n + 1;
        }
    }
    report_count(n > 0, CheckId::Mesh004, Severity::Warning, n, " degenerate triangles")
}

/// MESH005: vertices that welding would merge away.
pub fn check_duplicates(vertex_count: usize, welded_count: usize) -> (r: Vec<Finding>)
    ensures
        ({
            let dup = if vertex_count > welded_count {
                (vertex_count - welded_count) as nat
            } else {
                0nat
            };
            reports(r@, dup > 0, CheckId::Mesh005, Severity::Info, decimal(dup) + " duplicate vertices"@)
        }),
{
    let dup_v = vertex_count.saturating_sub(welded_count);
    report_count(dup_v > 0, CheckId::Mesh005, Severity::Info, dup_v, " duplicate vertices")
}

/// Triangles `a` and `b` have a vertex in common.
pub open spec fn spec_shares_vertex(a: [u32; 3], b: [u32; 3]) -> bool {
    exists|i: int, j: int| 0 <= i < 3 && 0 <= j < 3 && a[i] == b[j]
}

/// Whether two triangles share a vertex (such pairs are adjacent faces and
/// are skipped by the self-intersection scan).
pub fn shares_vertex(a: [u32; 3], b: [u32; 3]) -> (r: bool)
    ensures
        r == spec_shares_vertex(a, b),
{
    let r = a[0] == b[0] || a[0] == b[1] || a[0] == b[2] || a[1] == b[0] || a[1] == b[1] || a[1]
        == b[2] || a[2] == b[0] || a[2] == b[1] || a[2] == b[2];
    proof {
        if spec_shares_vertex(a, b) {
            let (i, j) = choose|i: int, j: int| 0 <= i < 3 && 0 <= j < 3 && a[i] == b[j];
            assert(r);
        }
        if r {
            if a[0] == b[0] { assert(a[0] == b[0]); }
        }
    }
    r
}

} // verus!
