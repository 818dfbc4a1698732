//! The order of the fix pipeline: read, repair, auto-fit, write, report.
//!
//! The pipeline's work (reading and writing files, repairing and fitting
//! the mesh) is done by its runner; this module decides, after each piece of
//! work, which one comes next.
use vstd::prelude::*;
use vstd::string::*;

verus! {

/// Switches of the fix pipeline.
#[derive(Debug, Clone, Copy, PartialEq, Eq, Structural)]
pub struct FixFlags {
    /// Run mesh repair.
    pub repair: bool,
    /// Run auto-fit.
    pub autofit: bool,
    /// Drop speck shells while repairing.
    pub drop_specks: bool,
    /// Do not write output.
    pub dry_run: bool,
}

/// A piece of work of the fix pipeline.
#[derive(Debug, Clone, Copy, PartialEq, Eq, Structural)]
pub enum FixAction {
    /// Load the input mesh.
    ReadMesh,
    /// Run the repair pipeline.
    RepairMesh { drop_specks: bool },
    /// Fit the mesh onto the bed.
    AutofitMesh,
    /// Store the fixed mesh.
    WriteOutput,
    /// Inspect the result and report; the auto-fit summary is attached when
    /// auto-fit ran.
    ReportFitted { with_autofit: bool },
    /// The mesh does not fit: report the fit failure with exit code 2,
    /// writing nothing.
    ReportUnfit,
}

/// How the previous piece of work ended.
#[derive(Debug, Clone, Copy, PartialEq, Eq, Structural)]
pub enum FixEvent {
    /// It completed.
    Completed,
    /// Auto-fit found that the mesh does not fit the build volume.
    DoesNotFit,
    /// It failed (the mesh could not be read, fitted or stored); the run
    /// stops and hands back that error, writing nothing more.
    Failed,
}

/// Position of an action in the pipeline's order.
pub open spec fn action_rank(a: FixAction) -> int {
    match a {
        FixAction::ReadMesh => 0,
        FixAction::RepairMesh { .. } => 1,
        FixAction::AutofitMesh => 2,
        FixAction::WriteOutput => 3,
        FixAction::ReportFitted { .. } => 4,
        FixAction::ReportUnfit => 5,
    }
}

/// The action of the pipeline at position `rank`, when `flags` enable it
/// (the read and the final report always are; an unfit report only follows
/// a failed fit).
pub open spec fn enabled_at(flags: FixFlags, rank: int) -> Option<FixAction> {
    if rank == 0 {
        Some(FixAction::ReadMesh)
    } else if rank == 1 && flags.repair {
        Some(FixAction::RepairMesh { drop_specks: flags.drop_specks })
    } else if rank == 2 && flags.autofit {
        Some(FixAction::AutofitMesh)
    } else if rank == 3 && !flags.dry_run {
        Some(FixAction::WriteOutput)
    } else if rank == 4 {
        Some(FixAction::ReportFitted { with_autofit: flags.autofit })
    } else {
        None
    }
}

/// The first action at a position after `after` that `flags` enable.
pub open spec fn first_enabled_after(flags: FixFlags, after: int, r: FixAction) -> bool {
    &&& after < action_rank(r) <= 4
    &&& enabled_at(flags, action_rank(r)) == Some(r)
    &&& forall|k: int| after < k < action_rank(r) ==> enabled_at(flags, k) is None
}

/// The next action of the fix pipeline, given the one that just ended
/// (`None` at the start) and how it ended. `None` once a report was made
/// or a piece of work failed. The mesh is read first and never again.
pub fn next_fix_action(flags: FixFlags, last: Option<FixAction>, event: FixEvent) -> (r: Option<FixAction>)
    ensures
        match last {
            None => r == Some(FixAction::ReadMesh),
            Some(_) if event == FixEvent::Failed => r is None,
            Some(FixAction::AutofitMesh) if event == FixEvent::DoesNotFit => r == Some(FixAction::ReportUnfit),
            Some(FixAction::ReportFitted { .. }) | Some(FixAction::ReportUnfit) => r is None,
            Some(a) => r matches Some(n) && first_enabled_after(flags, action_rank(a), n),
        },
        last is Some ==> r != Some(FixAction::ReadMesh),
{
    let from: u8 = match last {
        None => {
            return Some(FixAction::ReadMesh);
        },
        Some(_) if event == FixEvent::Failed => {
            return None;
        },
        Some(FixAction::ReadMesh) => 0,
        Some(FixAction::RepairMesh { .. }) => 1,
        Some(FixAction::AutofitMesh) => {
            if event == FixEvent::DoesNotFit {
                return Some(FixAction::ReportUnfit);
            }
            2
        },
        Some(FixAction::WriteOutput) => 3,
        Some(FixAction::ReportFitted { .. }) | Some(FixAction::ReportUnfit) => {
            return None;
        },
    };
    if from < 1 && flags.repair {
        Some(FixAction::RepairMesh { drop_specks: flags.drop_specks })
    } else if from < 2 && flags.autofit {
        Some(FixAction::AutofitMesh)
    } else if from < 3 && !flags.dry_run {
        Some(FixAction::WriteOutput)
    } else {
        Some(FixAction::ReportFitted { with_autofit: flags.autofit })
    }
}

/// The actions a run of the pipeline performs when every piece of work
/// completes: read, then repair, auto-fit and write as enabled, then report.
pub open spec fn fix_sequence(flags: FixFlags) -> Seq<FixAction> {
    seq![FixAction::ReadMesh]
        + (if flags.repair { seq![FixAction::RepairMesh { drop_specks: flags.drop_specks }] } else { Seq::empty() })
        + (if flags.autofit { seq![FixAction::AutofitMesh] } else { Seq::empty() })
        + (if !flags.dry_run { seq![FixAction::WriteOutput] } else { Seq::empty() })
        + seq![FixAction::ReportFitted { with_autofit: flags.autofit }]
}

/// A run in which every piece of work completes performs exactly the
/// actions of [`fix_sequence`], in order, then stops: each action is the
/// one that follows the previous one, and nothing follows the last.
pub proof fn lemma_fix_run_order(flags: FixFlags, i: int)
    requires
        0 <= i < fix_sequence(flags).len(),
    ensures
        i == 0 ==> fix_sequence(flags)[i] == FixAction::ReadMesh,
        i > 0 ==> first_enabled_after(flags, action_rank(fix_sequence(flags)[i - 1]), fix_sequence(flags)[i]),
        i == fix_sequence(flags).len() - 1 ==> fix_sequence(flags)[i] is ReportFitted,
{
    let s = fix_sequence(flags);
    let read = FixAction::ReadMesh;
    let repair = FixAction::RepairMesh { drop_specks: flags.drop_specks };
    let fit = FixAction::AutofitMesh;
    let write = FixAction::WriteOutput;
    let report = FixAction::ReportFitted { with_autofit: flags.autofit };
    if flags.repair {
        if flags.autofit {
            if !flags.dry_run {
                assert(s =~= seq![read, repair, fit, write, report]);
            } else {
                assert(s =~= seq![read, repair, fit, report]);
            }
        } else {
            if !flags.dry_run {
                assert(s =~= seq![read, repair, write, report]);
            } else {
                assert(s =~= seq![read, repair, report]);
            }
        }
    } else {
        if flags.autofit {
            if !flags.dry_run {
                assert(s =~= seq![read, fit, write, report]);
            } else {
                assert(s =~= seq![read, fit, report]);
            }
        } else {
            if !flags.dry_run {
                assert(s =~= seq![read, write, report]);
            } else {
                assert(s =~= seq![read, report]);
            }
        }
    }
}

/// What the command line tells the user once a fix has run.
#[derive(Debug, Clone, Copy, PartialEq, Eq, Structural)]
pub enum FixStatus {
    /// Nothing was written (dry run).
    DryRun,
    /// The output file was written.
    Wrote,
    /// The mesh does not fit the build volume.
    DoesNotFit,
}

/// `word` occurs in `text` as a run of consecutive characters.
pub open spec fn mentions(text: Seq<char>, word: Seq<char>) -> bool {
    exists|k: int| 0 <= k && k + word.len() <= text.len() && #[trigger] text.subrange(k, k + word.len()) == word
}

fn text_mentions(text: &str, word: &str) -> (r: bool)
    ensures
        r == mentions(text@, word@),
{
    let n = text.unicode_len();
    let m = word.unicode_len();
    if m > n {
        proof {
            assert forall|k: int| 0 <= k && k + word@.len() <= text@.len() implies #[trigger] text@.subrange(k, k + word@.len())
                != word@ by {}
        }
        return false;
    }
    let last = n - m;
    let mut k: usize = 0;
    loop
        invariant
            n == text@.len(),
            m == word@.len(),
            last + m == n,
            k <= last,
            forall|x: int| 0 <= x < k ==> #[trigger] text@.subrange(x, x + m) != word@,
        decreases last - k,
    {
        let mut j: usize = 0;
        let mut same = true;
        while j < m && same
            invariant
                n == text@.len(),
                m == word@.len(),
                last + m == n,
                k <= last,
                j <= m,
                same ==> forall|y: int| 0 <= y < j ==> text@[k + y] == word@[y],
                !same ==> text@.subrange(k as int, k + m) != word@,
            decreases m - j,
        {
            if text.get_char(k + j) != word.get_char(j) {
                proof {
                    assert(text@.subrange(k as int, k + m)[j as int] != word@[j as int]);
                }
                same = false;
            }
            j = j + 1;
        }
        if same {
            proof {
                assert(text@.subrange(k as int, k + m) =~= word@);
            }
            return true;
        }
        if k == last {
            proof {
                assert forall|x: int| 0 <= x && x + word@.len() <= text@.len() implies #[trigger] text@.subrange(x, x + word@.len())
                    != word@ by {
                    assert(x <= k);
                }
            }
            return false;
        }
        k = k + 1;
    }
}

/// The status line of a finished fix: a dry run writes nothing; otherwise
/// the output counts as written unless the report carries exit code 2 and
/// an auto-fit note that suggests splitting the part or scaling it to fit.
pub fn fix_status(dry_run: bool, exit_code: i32, autofit: Option<&str>) -> (r: FixStatus)
    ensures
        r == (if dry_run {
            FixStatus::DryRun
        } else if exit_code != 2 {
            FixStatus::Wrote
        } else if autofit matches Some(note) && (mentions(note@, "split"@) || mentions(
            note@,
            "scale-to-fit"@,
        )) {
            FixStatus::DoesNotFit
        } else {
            FixStatus::Wrote
        }),
{
    if dry_run {
        return FixStatus::DryRun;
    }
    if exit_code != 2 {
        return FixStatus::Wrote;
    }
    match autofit {
        Some(note) => {
            if text_mentions(note, "split") || text_mentions(note, "scale-to-fit") {
                FixStatus::DoesNotFit
            } else {
                FixStatus::Wrote
            }
        },
        None => FixStatus::Wrote,
    }
}

} // verus!
