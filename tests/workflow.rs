use giu::workflow::{advance, build_succeeded, is_finished, next_work, Stage, Work};

fn run(tag_count: usize, fail_at: Option<usize>) -> (Vec<Work>, Stage) {
    let mut stage = Stage::Start;
    let mut done = Vec::new();
    let mut step = 0;
    while !is_finished(stage) {
        let work = next_work(stage, tag_count);
        done.push(work);
        let ok = fail_at != Some(step);
        stage = advance(stage, tag_count, ok);
        step += 1;
    }
    (done, stage)
}

#[test]
fn run_with_tags_packages_each_in_order() {
    let (work, end) = run(2, None);
    assert_eq!(
        work,
        vec![
            Work::ResolveVersion,
            Work::ComputeSnapshot,
            Work::PackageTag(0),
            Work::PackageTag(1),
            Work::PackageFull,
            Work::WriteManifest,
            Work::Finish
        ]
    );
    assert_eq!(end, Stage::Done);
}

#[test]
fn run_without_tags_goes_to_full_package() {
    let (work, end) = run(0, None);
    assert_eq!(
        work,
        vec![Work::ResolveVersion, Work::ComputeSnapshot, Work::PackageFull, Work::WriteManifest, Work::Finish]
    );
    assert_eq!(end, Stage::Done);
}

#[test]
fn first_failure_ends_the_run() {
    let (work, end) = run(3, Some(2));
    assert_eq!(work, vec![Work::ResolveVersion, Work::ComputeSnapshot, Work::PackageTag(0)]);
    assert_eq!(end, Stage::Failed);
    assert_eq!(advance(Stage::Failed, 3, true), Stage::Failed);
    assert_eq!(next_work(Stage::Done, 3), Work::Nothing);
}

#[test]
fn build_log_success_markers() {
    let log = "line 1\nReleaseIncrementalServerData Build Success\nexit";
    assert!(build_succeeded(log, false));
    assert!(!build_succeeded(log, true));
    assert!(build_succeeded("ReleaseMainPackage Build Success", true));
    assert!(!build_succeeded("", false));
    assert!(!build_succeeded("ReleaseIncrementalServerData Build Succes", false));
}
