use metrowrap::cfile::CFileAction::{
    AssembleAll, CompileSource, CompileStubs, Finish, MergeStubs, PackAndWrite, PackSplitAndWrite,
    PatchFlagsAndWrite, PrepareTransplant, Preprocess, Splice, SplitAndWrite, Transplant,
    WriteDependencies, WriteObject,
};
use metrowrap::cfile::{next_step, CFileAction, CFileEvent, CFileRun, Phase};

fn run_all(mut run: CFileRun, preprocessed: usize) -> Vec<CFileAction> {
    let mut actions = vec![];
    let mut event = CFileEvent::Begin;
    loop {
        let (next, action) = next_step(run, event);
        run = next;
        actions.push(action);
        event = match action {
            CFileAction::Preprocess => CFileEvent::Preprocessed(preprocessed),
            CFileAction::Finish | CFileAction::Fail => break,
            _ => CFileEvent::Done,
        };
    }
    actions
}

#[test]
fn c_file_without_assembly_is_compiled_and_written() {
    assert_eq!(
        vec![Preprocess, CompileSource, WriteDependencies, WriteObject, Finish],
        run_all(CFileRun::new(false, None), 0)
    );
    assert_eq!(
        vec![Preprocess, CompileSource, WriteDependencies, PatchFlagsAndWrite(7), Finish],
        run_all(CFileRun::new(false, Some(7)), 0)
    );
    assert_eq!(
        vec![Preprocess, CompileSource, WriteDependencies, SplitAndWrite(Some(7)), Finish],
        run_all(CFileRun::new(true, Some(7)), 0)
    );
}

#[test]
fn split_run_splices_each_object_once() {
    assert_eq!(
        vec![
            Preprocess,
            CompileStubs,
            WriteDependencies,
            MergeStubs(None),
            AssembleAll,
            Splice(0),
            Splice(1),
            PackSplitAndWrite,
            Finish
        ],
        run_all(CFileRun::new(true, None), 2)
    );
}

#[test]
fn transplant_run_writes_dependencies_last() {
    assert_eq!(
        vec![
            Preprocess,
            CompileStubs,
            PrepareTransplant,
            AssembleAll,
            Transplant(0),
            Transplant(1),
            Transplant(2),
            WriteDependencies,
            PackAndWrite(Some(3)),
            Finish
        ],
        run_all(CFileRun::new(false, Some(3)), 3)
    );
}

#[test]
fn failure_or_stray_event_ends_the_run() {
    let run = CFileRun::new(false, None);
    let (next, action) = next_step(run, CFileEvent::Failed);
    assert_eq!(CFileAction::Fail, action);
    assert_eq!(Phase::Finished, next.phase);
    let (_, action) = next_step(run, CFileEvent::Done);
    assert_eq!(CFileAction::Fail, action);
}
