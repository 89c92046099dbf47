use dumbdb::replacement::{
    recovery_plan, replacement_plan, retired_path, staging_path, DiskStep,
};

type Files = Vec<Vec<u8>>;

#[derive(Clone, Debug, PartialEq)]
struct Dirs {
    live: Option<Files>,
    staging: Option<Files>,
    retired: Option<Files>,
}

fn files(contents: &[&[u8]]) -> Files {
    contents.iter().map(|bytes| bytes.to_vec()).collect()
}

fn carry_out(dirs: &mut Dirs, step: &DiskStep) {
    match step {
        DiskStep::DiscardStaging => dirs.staging = None,
        DiskStep::DiscardRetired => dirs.retired = None,
        DiskStep::CreateStaging => dirs.staging = Some(Vec::new()),
        DiskStep::WriteStaged { number, bytes } => {
            let staged = dirs.staging.as_mut().unwrap();
            assert_eq!(*number, staged.len());
            staged.push(bytes.clone());
        },
        DiskStep::RetireLive => {
            assert!(dirs.retired.is_none());
            dirs.retired = dirs.live.take();
        },
        DiskStep::PromoteStaging => {
            assert!(dirs.live.is_none());
            dirs.live = dirs.staging.take();
        },
    }
}

fn interrupt(dirs: &mut Dirs, step: &DiskStep, left: Option<Files>) {
    match step {
        DiskStep::DiscardStaging | DiskStep::CreateStaging | DiskStep::WriteStaged { .. } => {
            dirs.staging = left
        },
        DiskStep::DiscardRetired => dirs.retired = left,
        DiskStep::RetireLive | DiskStep::PromoteStaging => {},
    }
}

fn recover(dirs: &mut Dirs) {
    for step in recovery_plan(dirs.live.is_some(), dirs.staging.is_some()).iter() {
        carry_out(dirs, step);
    }
}

#[test]
fn replacement_plan_lists_the_steps() {
    assert_eq!(
        replacement_plan(&files(&[b"a,1\n", b"b,2\n"])),
        vec![
            DiskStep::DiscardStaging,
            DiskStep::DiscardRetired,
            DiskStep::CreateStaging,
            DiskStep::WriteStaged { number: 0, bytes: b"a,1\n".to_vec() },
            DiskStep::WriteStaged { number: 1, bytes: b"b,2\n".to_vec() },
            DiskStep::RetireLive,
            DiskStep::PromoteStaging,
            DiskStep::DiscardRetired,
        ]
    );
    assert_eq!(
        replacement_plan(&Vec::new()),
        vec![
            DiskStep::DiscardStaging,
            DiskStep::DiscardRetired,
            DiskStep::CreateStaging,
            DiskStep::RetireLive,
            DiskStep::PromoteStaging,
            DiskStep::DiscardRetired,
        ]
    );
}

#[test]
fn recovery_plan_depends_on_what_is_there() {
    assert_eq!(
        recovery_plan(true, true),
        vec![DiskStep::DiscardStaging, DiskStep::DiscardRetired]
    );
    assert_eq!(
        recovery_plan(true, false),
        vec![DiskStep::DiscardStaging, DiskStep::DiscardRetired]
    );
    assert_eq!(
        recovery_plan(false, true),
        vec![DiskStep::PromoteStaging, DiskStep::DiscardRetired]
    );
    assert_eq!(recovery_plan(false, false), Vec::<DiskStep>::new());
}

#[test]
fn replacement_runs_to_the_new_files() {
    let old = files(&[b"a,1\nb,2\n", b"a,3\n"]);
    let new = files(&[b"b,2\na,3\n"]);
    let mut dirs = Dirs { live: Some(old), staging: Some(files(&[b"left over"])), retired: None };
    for step in replacement_plan(&new).iter() {
        carry_out(&mut dirs, step);
    }
    assert_eq!(dirs, Dirs { live: Some(new), staging: None, retired: None });
}

#[test]
fn crash_during_replacement_leaves_old_or_new_files() {
    let old = files(&[b"a,1\nb,2\n", b"a,3\n"]);
    let new = files(&[b"b,2\n", b"a,3\n", b"c,4\n"]);
    let plan = replacement_plan(&new);
    let leftovers: Vec<Option<Files>> =
        vec![None, Some(Vec::new()), Some(files(&[b"b,2\n", b"a,"])), Some(files(&[b"junk"]))];
    let mut seen_old = false;
    let mut seen_new = false;
    for done in 0..=plan.len() {
        for left in leftovers.iter() {
            for torn in [false, true] {
                let mut dirs = Dirs { live: Some(old.clone()), staging: None, retired: None };
                for step in plan.iter().take(done) {
                    carry_out(&mut dirs, step);
                }
                if torn && done < plan.len() {
                    interrupt(&mut dirs, &plan[done], left.clone());
                }
                recover(&mut dirs);
                assert!(dirs.staging.is_none());
                assert!(dirs.retired.is_none());
                let live = dirs.live.unwrap();
                assert!(live == old || live == new);
                seen_old = seen_old || live == old;
                seen_new = seen_new || live == new;
            }
        }
    }
    assert!(seen_old && seen_new);
}

#[test]
fn staging_and_retired_directories_stand_beside_the_data_directory() {
    assert_eq!(staging_path("./dumbdb/data"), "./dumbdb/data.staging");
    assert_eq!(retired_path("./dumbdb/data"), "./dumbdb/data.retired");
}
