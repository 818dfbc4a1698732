use k1fix::fix_flow::{fix_status, next_fix_action, FixAction, FixEvent, FixFlags, FixStatus};

fn run(flags: FixFlags) -> Vec<FixAction> {
    let mut out = Vec::new();
    let mut last = None;
    while let Some(a) = next_fix_action(flags, last, FixEvent::Completed) {
        out.push(a);
        last = Some(a);
    }
    out
}

#[test]
fn full_pipeline_order() {
    let flags = FixFlags { repair: true, autofit: true, drop_specks: true, dry_run: false };
    assert_eq!(
        run(flags),
        vec![
            FixAction::ReadMesh,
            FixAction::RepairMesh { drop_specks: true },
            FixAction::AutofitMesh,
            FixAction::WriteOutput,
            FixAction::ReportFitted { with_autofit: true },
        ]
    );
}

#[test]
fn dry_run_writes_nothing() {
    let flags = FixFlags { repair: true, autofit: false, drop_specks: false, dry_run: true };
    assert_eq!(
        run(flags),
        vec![
            FixAction::ReadMesh,
            FixAction::RepairMesh { drop_specks: false },
            FixAction::ReportFitted { with_autofit: false },
        ]
    );
}

#[test]
fn unfit_mesh_is_reported_without_writing() {
    let flags = FixFlags { repair: false, autofit: true, drop_specks: true, dry_run: false };
    assert_eq!(next_fix_action(flags, None, FixEvent::Completed), Some(FixAction::ReadMesh));
    assert_eq!(next_fix_action(flags, Some(FixAction::ReadMesh), FixEvent::Completed), Some(FixAction::AutofitMesh));
    assert_eq!(next_fix_action(flags, Some(FixAction::AutofitMesh), FixEvent::DoesNotFit), Some(FixAction::ReportUnfit));
    assert_eq!(next_fix_action(flags, Some(FixAction::ReportUnfit), FixEvent::Completed), None);
}

#[test]
fn nothing_enabled_reads_and_reports() {
    let flags = FixFlags { repair: false, autofit: false, drop_specks: false, dry_run: true };
    assert_eq!(run(flags), vec![FixAction::ReadMesh, FixAction::ReportFitted { with_autofit: false }]);
}

#[test]
fn status_lines_after_a_fix() {
    assert_eq!(fix_status(true, 2, Some("split the part")), FixStatus::DryRun);
    assert_eq!(fix_status(false, 0, None), FixStatus::Wrote);
    assert_eq!(fix_status(false, 1, Some("pass --scale-to-fit")), FixStatus::Wrote);
    assert_eq!(
        fix_status(false, 2, Some("footprint 500.00x10.00x10.00 mm vs usable 214.00x214.00x250.00 mm \u{2014} split the part or pass --scale-to-fit")),
        FixStatus::DoesNotFit
    );
    assert_eq!(fix_status(false, 2, Some("pass --scale-to-fit")), FixStatus::DoesNotFit);
    assert_eq!(fix_status(false, 2, Some("oriented and placed on bed")), FixStatus::Wrote);
    assert_eq!(fix_status(false, 2, None), FixStatus::Wrote);
    assert_eq!(fix_status(false, 2, Some("spli")), FixStatus::Wrote);
}

#[test]
fn a_failed_step_ends_the_run() {
    let flags = FixFlags { repair: true, autofit: true, drop_specks: true, dry_run: false };
    assert_eq!(next_fix_action(flags, Some(FixAction::ReadMesh), FixEvent::Failed), None);
    assert_eq!(next_fix_action(flags, Some(FixAction::AutofitMesh), FixEvent::Failed), None);
    assert_eq!(next_fix_action(flags, Some(FixAction::WriteOutput), FixEvent::Failed), None);
    assert_eq!(next_fix_action(flags, None, FixEvent::Failed), Some(FixAction::ReadMesh));
}
