//! The per-platform packaging workflow as a state machine: the caller does
//! the work that a stage names, reports whether it succeeded, and is told the
//! next stage. The first failure ends the run; nothing is rolled back.
use vstd::prelude::*;
use crate::text::chars_of;

verus! {

/// Where a run stands: the last step that succeeded.
#[derive(Clone, Copy, PartialEq, Eq, Structural, Debug)]
pub enum Stage {
    /// Nothing done yet.
    Start,
    /// The patch version is known.
    VersionResolved,
    /// The platform is built, its output indexed, the index and the version
    /// marker written.
    SnapshotComputed,
    /// The incremental package from the earlier release at this position of
    /// the tag list is written.
    PerTag(usize),
    /// The full package is written.
    FullPackaged,
    /// The manifest is written.
    ManifestWritten,
    /// The run is complete.
    Done,
    /// A step failed.
    Failed,
}

/// The work that leads out of a stage.
#[derive(Clone, Copy, PartialEq, Eq, Structural, Debug)]
pub enum Work {
    /// List the release tags and compute the patch version.
    ResolveVersion,
    /// Build the platform, index its output, write the index and the
    /// version marker.
    ComputeSnapshot,
    /// Diff against, and package the update from, the earlier release at
    /// this position of the tag list.
    PackageTag(usize),
    /// Package every current file.
    PackageFull,
    /// Write the manifest.
    WriteManifest,
    /// Close the run.
    Finish,
    /// Nothing: the run has ended.
    Nothing,
}

/// The work to do at `stage` with `tag_count` earlier releases.
pub open spec fn work_at(stage: Stage, tag_count: nat) -> Work {
    match stage {
        Stage::Start => Work::ResolveVersion,
        Stage::VersionResolved => Work::ComputeSnapshot,
        Stage::SnapshotComputed => if tag_count > 0 { Work::PackageTag(0) } else { Work::PackageFull },
        Stage::PerTag(i) => if i + 1 < tag_count { Work::PackageTag((i + 1) as usize) } else { Work::PackageFull },
        Stage::FullPackaged => Work::WriteManifest,
        Stage::ManifestWritten => Work::Finish,
        _ => Work::Nothing,
    }
}

/// The work to do at `stage` (see [`work_at`]).
pub fn next_work(stage: Stage, tag_count: usize) -> (r: Work)
    requires
        valid_stage(stage, tag_count as nat),
    ensures
        r == work_at(stage, tag_count as nat),
{
    match stage {
        Stage::Start => Work::ResolveVersion,
        Stage::VersionResolved => Work::ComputeSnapshot,
        Stage::SnapshotComputed => if tag_count > 0 { Work::PackageTag(0) } else { Work::PackageFull },
        Stage::PerTag(i) => if i + 1 < tag_count { Work::PackageTag(i + 1) } else { Work::PackageFull },
        Stage::FullPackaged => Work::WriteManifest,
        Stage::ManifestWritten => Work::Finish,
        _ => Work::Nothing,
    }
}

/// The stage after `stage`, given the number of earlier releases and whether
/// the work at `stage` succeeded.
pub open spec fn next_stage(stage: Stage, tag_count: nat, ok: bool) -> Stage {
    match stage {
        Stage::Done => Stage::Done,
        Stage::Failed => Stage::Failed,
        _ => if !ok {
            Stage::Failed
        } else {
            match stage {
                Stage::Start => Stage::VersionResolved,
                Stage::VersionResolved => Stage::SnapshotComputed,
                Stage::SnapshotComputed => if tag_count > 0 { Stage::PerTag(0) } else { Stage::FullPackaged },
                Stage::PerTag(i) => if i + 1 < tag_count { Stage::PerTag((i + 1) as usize) } else { Stage::FullPackaged },
                Stage::FullPackaged => Stage::ManifestWritten,
                _ => Stage::Done,
            }
        }
    }
}

/// A stage that a run can reach with `tag_count` earlier releases.
pub open spec fn valid_stage(stage: Stage, tag_count: nat) -> bool {
    match stage {
        Stage::PerTag(i) => i < tag_count,
        _ => true,
    }
}

/// The stage after `stage` (see [`next_stage`]).
pub fn advance(stage: Stage, tag_count: usize, ok: bool) -> (r: Stage)
    requires
        valid_stage(stage, tag_count as nat),
    ensures
        r == next_stage(stage, tag_count as nat, ok),
        valid_stage(r, tag_count as nat),
{
    match stage {
        Stage::Done => Stage::Done,
        Stage::Failed => Stage::Failed,
        _ => if !ok {
            Stage::Failed
        } else {
            match stage {
                Stage::Start => Stage::VersionResolved,
                Stage::VersionResolved => Stage::SnapshotComputed,
                Stage::SnapshotComputed => if tag_count > 0 { Stage::PerTag(0) } else { Stage::FullPackaged },
                Stage::PerTag(i) => if i + 1 < tag_count { Stage::PerTag(i + 1) } else { Stage::FullPackaged },
                Stage::FullPackaged => Stage::ManifestWritten,
                _ => Stage::Done,
            }
        }
    }
}

/// Whether the run has ended, well or not.
pub fn is_finished(stage: Stage) -> (r: bool)
    ensures
        r == (stage == Stage::Done || stage == Stage::Failed),
{
    match stage {
        Stage::Done | Stage::Failed => true,
        _ => false,
    }
}

/// The number of successful steps a run with `tag_count` earlier releases
/// has left from `stage`.
pub open spec fn steps_left(stage: Stage, tag_count: nat) -> nat {
    match stage {
        Stage::Start => tag_count + 5,
        Stage::VersionResolved => tag_count + 4,
        Stage::SnapshotComputed => tag_count + 3,
        Stage::PerTag(i) => if i < tag_count { (tag_count - i + 2) as nat } else { 2 },
        Stage::FullPackaged => 2,
        Stage::ManifestWritten => 1,
        Stage::Done => 0,
        Stage::Failed => 0,
    }
}

/// Each step of a run that has not ended brings it closer to its end, so
/// every run ends; every earlier release is packaged, in list order, between
/// the snapshot and the full package; a failed step ends the run.
pub proof fn lemma_run_progresses(stage: Stage, tag_count: nat, ok: bool)
    requires
        valid_stage(stage, tag_count),
        tag_count <= usize::MAX,
        stage != Stage::Done,
        stage != Stage::Failed,
    ensures
        steps_left(next_stage(stage, tag_count, ok), tag_count) < steps_left(stage, tag_count),
        ok && stage == Stage::SnapshotComputed && tag_count > 0 ==> next_stage(stage, tag_count, ok) == Stage::PerTag(0),
        ok ==> (stage matches Stage::PerTag(i) ==> (next_stage(stage, tag_count, ok) == if i + 1 < tag_count {
            Stage::PerTag((i + 1) as usize)
        } else {
            Stage::FullPackaged
        })),
        !ok ==> next_stage(stage, tag_count, ok) == Stage::Failed,
        ok ==> (work_at(stage, tag_count) matches Work::PackageTag(j) ==> next_stage(stage, tag_count, ok) == Stage::PerTag(j)),
        ok && work_at(stage, tag_count) == Work::PackageFull ==> next_stage(stage, tag_count, ok) == Stage::FullPackaged,
        ok && work_at(stage, tag_count) == Work::WriteManifest ==> next_stage(stage, tag_count, ok) == Stage::ManifestWritten,
{
}

/// The build log reports success: it holds `marker` somewhere.
pub open spec fn log_reports(log: Seq<char>, marker: Seq<char>) -> bool {
    exists|i: int| 0 <= i && i + marker.len() <= log.len() && #[trigger] log.subrange(i, i + marker.len()) == marker
}

/// Whether the build log `log` holds the success line of the build that was
/// run: of the main package if `build_app`, else of the incremental content.
pub fn build_succeeded(log: &str, build_app: bool) -> (r: bool)
    ensures
        r == log_reports(log@, if build_app {
            "ReleaseMainPackage Build Success"@
        } else {
            "ReleaseIncrementalServerData Build Success"@
        }),
{
    let marker = if build_app {
        "ReleaseMainPackage Build Success"
    } else {
        "ReleaseIncrementalServerData Build Success"
    };
    let l = chars_of(log);
    let m = chars_of(marker);
    if m.len() > l.len() {
        return false;
    }
    let mut i: usize = 0;
    while i <= l.len() - m.len()
        invariant
            m@.len() <= l@.len(),
            l@.len() == l.len(),
            m@.len() == m.len(),
            l@ == log@,
            m@ == marker@,
            marker@ == (if build_app {
                "ReleaseMainPackage Build Success"@
            } else {
                "ReleaseIncrementalServerData Build Success"@
            }),
            forall|k: int| 0 <= k < i ==> #[trigger] l@.subrange(k, k + m@.len()) != m@,
        decreases l@.len() - i,
    {
        let mut j: usize = 0;
        while j < m.len() && l[i + j] == m[j]
            invariant
                i + m@.len() <= l@.len(),
                l@.len() == l.len(),
                m@.len() == m.len(),
                j <= m@.len(),
                forall|q: int| 0 <= q < j ==> l@[i + q] == m@[q],
            decreases m@.len() - j,
        {
            j += 1;
        }
        if j == m.len() {
            assert(l@.subrange(i as int, i + m@.len()) =~= m@);
            assert(log@.subrange(i as int, i + marker@.len()) == marker@);
            assert(log_reports(log@, marker@));
            return true;
        }
        assert(l@.subrange(i as int, i + m@.len())[j as int] != m@[j as int]);
        i += 1;
    }
    proof {
        assert forall|k: int| !(0 <= k && k + m@.len() <= l@.len() && #[trigger] l@.subrange(k, k + m@.len()) == m@) by {
            if 0 <= k && k + m@.len() <= l@.len() {
                assert(k < i);
            }
        }
    }
    false
}

} // verus!
