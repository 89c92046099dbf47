//! Replacing the segment files after compaction. The new files are written
//! to a staging directory beside the data directory; when they are complete
//! the data directory is retired and the staging directory takes its place.
//! Whenever the steps are interrupted, the steps of recovery lead to a data
//! directory that holds the old files or the new ones, whole.

use vstd::prelude::*;
use vstd::string::*;
use crate::bytes::copy_range;
use crate::log::contents_of;

verus! {

/// One step on the directories. A discard or a write may be interrupted
/// half-way; a rename takes place or does not.
#[derive(Debug, PartialEq, Eq)]
pub enum DiskStep {
    /// Remove the staging directory and what it holds, if it is there.
    DiscardStaging,
    /// Remove the retired directory and what it holds, if it is there.
    DiscardRetired,
    /// Create the staging directory, empty.
    CreateStaging,
    /// Write the segment file with this number and these bytes into the
    /// staging directory, and flush it.
    WriteStaged { number: usize, bytes: Vec<u8> },
    /// Rename the data directory to the retired directory.
    RetireLive,
    /// Rename the staging directory to the data directory.
    PromoteStaging,
}

/// The mathematical value of a [`DiskStep`].
pub enum StepView {
    DiscardStaging,
    DiscardRetired,
    CreateStaging,
    WriteStaged { number: int, bytes: Seq<u8> },
    RetireLive,
    PromoteStaging,
}

impl View for DiskStep {
    type V = StepView;

    open spec fn view(&self) -> StepView {
        match *self {
            DiskStep::DiscardStaging => StepView::DiscardStaging,
            DiskStep::DiscardRetired => StepView::DiscardRetired,
            DiskStep::CreateStaging => StepView::CreateStaging,
            DiskStep::WriteStaged { number, bytes } => StepView::WriteStaged {
                number: number as int,
                bytes: bytes@,
            },
            DiskStep::RetireLive => StepView::RetireLive,
            DiskStep::PromoteStaging => StepView::PromoteStaging,
        }
    }
}

/// The values of a list of steps.
pub open spec fn step_views(steps: Seq<DiskStep>) -> Seq<StepView> {
    Seq::new(steps.len(), |i: int| steps[i]@)
}

/// What the three directories hold: the segment files of each, or nothing
/// where the directory is missing.
pub struct Dirs {
    /// The data directory.
    pub live: Option<Seq<Seq<u8>>>,
    /// The staging directory.
    pub staging: Option<Seq<Seq<u8>>>,
    /// The retired directory.
    pub retired: Option<Seq<Seq<u8>>>,
}

/// The directories after a step was completed.
pub open spec fn after(dirs: Dirs, step: StepView) -> Dirs {
    match step {
        StepView::DiscardStaging => Dirs { staging: None, ..dirs },
        StepView::DiscardRetired => Dirs { retired: None, ..dirs },
        StepView::CreateStaging => Dirs { staging: Some(Seq::empty()), ..dirs },
        StepView::WriteStaged { number, bytes } => match dirs.staging {
            Some(files) => Dirs { staging: Some(files.push(bytes)), ..dirs },
            None => dirs,
        },
        StepView::RetireLive => Dirs { live: None, retired: dirs.live, ..dirs },
        StepView::PromoteStaging => Dirs { live: dirs.staging, staging: None, ..dirs },
    }
}

/// The directories after a step was interrupted: a rename has not taken
/// place, and the directory that a discard or a write works on holds
/// anything, or is missing.
pub open spec fn torn(dirs: Dirs, step: StepView, left: Option<Seq<Seq<u8>>>) -> Dirs {
    match step {
        StepView::DiscardStaging => Dirs { staging: left, ..dirs },
        StepView::DiscardRetired => Dirs { retired: left, ..dirs },
        StepView::CreateStaging => Dirs { staging: left, ..dirs },
        StepView::WriteStaged { number, bytes } => Dirs { staging: left, ..dirs },
        StepView::RetireLive => dirs,
        StepView::PromoteStaging => dirs,
    }
}

/// The directories after each of the steps was completed in turn.
pub open spec fn after_all(dirs: Dirs, steps: Seq<StepView>) -> Dirs
    decreases steps.len(),
{
    if steps.len() == 0 {
        dirs
    } else {
        after(after_all(dirs, steps.drop_last()), steps.last())
    }
}

/// The steps that replace the segment files by `files`.
pub open spec fn replacement_steps(files: Seq<Seq<u8>>) -> Seq<StepView> {
    seq![StepView::DiscardStaging, StepView::DiscardRetired, StepView::CreateStaging] + Seq::new(
        files.len(),
        |i: int| StepView::WriteStaged { number: i, bytes: files[i] },
    ) + seq![StepView::RetireLive, StepView::PromoteStaging, StepView::DiscardRetired]
}

/// The steps of recovery at startup. Where the data directory is there, what
/// is left of a staging or retired directory is removed. Where it is missing
/// and the staging directory is there, a replacement was interrupted between
/// its two renames: the staging directory is complete and takes its place.
pub open spec fn recovery_steps(live: bool, staging: bool) -> Seq<StepView> {
    if live {
        seq![StepView::DiscardStaging, StepView::DiscardRetired]
    } else if staging {
        seq![StepView::PromoteStaging, StepView::DiscardRetired]
    } else {
        Seq::empty()
    }
}

/// The directories after recovery.
pub open spec fn recovered(dirs: Dirs) -> Dirs {
    after_all(dirs, recovery_steps(dirs.live is Some, dirs.staging is Some))
}

/// The directories after the first `done` steps of a replacement.
pub open spec fn progress(start: Dirs, files: Seq<Seq<u8>>, done: int) -> Dirs {
    if done == 0 {
        start
    } else if done == 1 {
        Dirs { staging: None, ..start }
    } else if done == 2 {
        Dirs { staging: None, retired: None, ..start }
    } else if done <= 3 + files.len() {
        Dirs { staging: Some(files.subrange(0, done - 3)), retired: None, ..start }
    } else if done == 4 + files.len() {
        Dirs { live: None, staging: Some(files), retired: start.live }
    } else if done == 5 + files.len() {
        Dirs { live: Some(files), staging: None, retired: start.live }
    } else {
        Dirs { live: Some(files), staging: None, retired: None }
    }
}

/// After any number of completed steps of a replacement the directories are
/// as `progress` says.
pub proof fn lemma_progress(start: Dirs, files: Seq<Seq<u8>>, done: int)
    requires
        0 <= done <= replacement_steps(files).len(),
    ensures
        replacement_steps(files).len() == files.len() + 6,
        after_all(start, replacement_steps(files).subrange(0, done)) == progress(
            start,
            files,
            done,
        ),
    decreases done,
{
    let steps = replacement_steps(files);
    if done > 0 {
        let upto = steps.subrange(0, done);
        assert(upto.drop_last() =~= steps.subrange(0, done - 1));
        assert(upto.last() == steps[done - 1]);
        lemma_progress(start, files, done - 1);
        if 3 < done <= 3 + files.len() {
            assert(steps[done - 1] == StepView::WriteStaged {
                number: done - 4,
                bytes: files[done - 4],
            });
            assert(files.subrange(0, done - 4).push(files[done - 4]) =~= files.subrange(
                0,
                done - 3,
            ));
        } else if done == 3 {
            assert(files.subrange(0, 0) =~= Seq::<Seq<u8>>::empty());
        } else if done == 4 + files.len() {
            assert(files.subrange(0, files.len() as int) =~= files);
        }
    }
}

/// A replacement that runs to its end leaves the new files in the data
/// directory, and neither a staging nor a retired directory.
pub proof fn law_replacement_completes(start: Dirs, files: Seq<Seq<u8>>)
    ensures
        after_all(start, replacement_steps(files)) == (Dirs {
            live: Some(files),
            staging: None,
            retired: None,
        }),
{
    let steps = replacement_steps(files);
    lemma_progress(start, files, steps.len() as int);
    assert(steps.subrange(0, steps.len() as int) =~= steps);
}

/// A replacement that is interrupted, between two steps or in the middle of
/// one, leaves directories from which recovery leads to a data directory
/// that holds the old files or the new ones, whole, whatever the interrupted
/// step left behind.
pub proof fn law_crash_leaves_old_or_new(
    start: Dirs,
    files: Seq<Seq<u8>>,
    done: int,
    left: Option<Seq<Seq<u8>>>,
)
    requires
        start.live is Some,
        0 <= done < replacement_steps(files).len(),
    ensures
        ({
            let reached = after_all(start, replacement_steps(files).subrange(0, done));
            let crashed = torn(reached, replacement_steps(files)[done], left);
            &&& recovered(reached).live == start.live || recovered(reached).live == Some(files)
            &&& recovered(crashed).live == start.live || recovered(crashed).live == Some(files)
            &&& recovered(reached).staging is None && recovered(reached).retired is None
            &&& recovered(crashed).staging is None && recovered(crashed).retired is None
        }),
{
    let steps = replacement_steps(files);
    lemma_progress(start, files, done);
    let reached = progress(start, files, done);
    let crashed = torn(reached, steps[done], left);
    lemma_recovered(reached);
    lemma_recovered(crashed);
    if 3 <= done < 3 + files.len() {
        assert(steps[done] == StepView::WriteStaged { number: done - 3, bytes: files[done - 3] });
    }
}

/// Recovery keeps a data directory that is there, puts a staging directory
/// in the place of one that is missing, and leaves no other directory.
pub proof fn lemma_recovered(dirs: Dirs)
    ensures
        recovered(dirs).live == if dirs.live is Some {
            dirs.live
        } else {
            dirs.staging
        },
        dirs.live is Some || dirs.staging is Some ==> recovered(dirs).staging is None && recovered(
            dirs,
        ).retired is None,
{
    let steps = recovery_steps(dirs.live is Some, dirs.staging is Some);
    if steps.len() == 2 {
        let first = steps.drop_last();
        assert(first.len() == 1);
        assert(first.drop_last() =~= Seq::<StepView>::empty());
        assert(after_all(dirs, first.drop_last()) == dirs);
        assert(after_all(dirs, first) == after(dirs, steps[0]));
        assert(after_all(dirs, steps) == after(after(dirs, steps[0]), steps[1]));
    }
}

/// The steps that replace the segment files by `files`.
pub fn replacement_plan(files: &Vec<Vec<u8>>) -> (steps: Vec<DiskStep>)
    ensures
        step_views(steps@) == replacement_steps(contents_of(files@)),
{
    let n = files.len();
    let mut steps: Vec<DiskStep> = Vec::new();
    steps.push(DiskStep::DiscardStaging);
    steps.push(DiskStep::DiscardRetired);
    steps.push(DiskStep::CreateStaging);
    let mut i: usize = 0;
    while i < n
        invariant
            i <= n,
            n == files@.len(),
            steps@.len() == 3 + i,
            steps@[0]@ == StepView::DiscardStaging,
            steps@[1]@ == StepView::DiscardRetired,
            steps@[2]@ == StepView::CreateStaging,
            forall|j: int|
                0 <= j < i ==> (#[trigger] steps@[3 + j])@ == (StepView::WriteStaged {
                    number: j,
                    bytes: files@[j]@,
                }),
        decreases n - i,
    {
        let bytes = copy_range(files[i].as_slice(), 0, files[i].len());
        assert(bytes@ =~= files@[i as int]@);
        steps.push(DiskStep::WriteStaged { number: i, bytes });
        i = i + 1;
    }
    steps.push(DiskStep::RetireLive);
    steps.push(DiskStep::PromoteStaging);
    steps.push(DiskStep::DiscardRetired);
    proof {
        let planned = replacement_steps(contents_of(files@));
        assert(step_views(steps@).len() == planned.len());
        assert forall|j: int| 0 <= j < planned.len() implies step_views(steps@)[j] == planned[j] by {
            if 3 <= j < 3 + n {
                assert(steps@[3 + (j - 3)]@ == (StepView::WriteStaged {
                    number: j - 3,
                    bytes: files@[j - 3]@,
                }));
            }
        }
        assert(step_views(steps@) =~= planned);
    }
    steps
}

/// The steps of recovery at startup, given which directories are there.
pub fn recovery_plan(live: bool, staging: bool) -> (steps: Vec<DiskStep>)
    ensures
        step_views(steps@) == recovery_steps(live, staging),
{
    let mut steps: Vec<DiskStep> = Vec::new();
    if live {
        steps.push(DiskStep::DiscardStaging);
        steps.push(DiskStep::DiscardRetired);
    } else if staging {
        steps.push(DiskStep::PromoteStaging);
        steps.push(DiskStep::DiscardRetired);
    }
    assert(step_views(steps@) =~= recovery_steps(live, staging));
    steps
}

/// The path of the staging directory beside a data directory.
pub fn staging_path(directory: &str) -> (path: String)
    ensures
        path@ == directory@ + ".staging"@,
{
    let mut path = String::from_str(directory);
    path.append(".staging");
    path
}

/// The path of the retired directory beside a data directory.
pub fn retired_path(directory: &str) -> (path: String)
    ensures
        path@ == directory@ + ".retired"@,
{
    let mut path = String::from_str(directory);
    path.append(".retired");
    path
}

} // verus!
