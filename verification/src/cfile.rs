//! The decisions of processing one C file: which outside step comes next
//! (preprocessing, compiling, assembling, writing) given what came back.
use vstd::prelude::*;

verus! {

/// Where the processing of a C file stands.
#[derive(Debug, Clone, Copy, PartialEq, Eq)]
pub enum Phase {
    Start,
    AwaitPreprocess,
    /// Compiling; the number of assembly files found.
    AwaitCompile(usize),
    /// Writing the dependency file right after compiling.
    AwaitDeps(usize),
    /// Reading the compiled object and merging its stub symbols.
    AwaitMerge(usize),
    /// Reading the compiled object and listing its stub functions.
    AwaitPrepare(usize),
    AwaitAssemble(usize),
    /// Putting in assembled object `next` of `total`.
    Inserting { next: usize, total: usize },
    /// Writing the dependency file after the assembled objects are in.
    AwaitFinalDeps,
    AwaitWrite,
    Finished,
}

/// The state of processing a C file: the phase and the options that the
/// decisions read.
#[derive(Debug, Clone, Copy, PartialEq, Eq)]
pub struct CFileRun {
    pub phase: Phase,
    pub split_sections: bool,
    pub elf_flags: Option<u32>,
}

/// What the outside work reports.
#[derive(Debug, Clone, Copy, PartialEq, Eq)]
pub enum CFileEvent {
    Begin,
    /// The C file was preprocessed; the number of assembly files found.
    Preprocessed(usize),
    Done,
    Failed,
}

/// The outside work to do next.
#[derive(Debug, Clone, Copy, PartialEq, Eq)]
pub enum CFileAction {
    /// Find the INCLUDE_ASM macros and write the stub source.
    Preprocess,
    /// Compile the C file as it is.
    CompileSource,
    /// Compile the stub source.
    CompileStubs,
    WriteDependencies,
    /// Read the object, set these flags, split its sections, write it.
    SplitAndWrite(Option<u32>),
    /// Write the object with `e_flags` patched.
    PatchFlagsAndWrite(u32),
    /// Write the object as compiled.
    WriteObject,
    /// Read the object, set these flags, and merge its stub symbols.
    MergeStubs(Option<u32>),
    /// Read the object, name `.rel.text` and list the stub functions.
    PrepareTransplant,
    AssembleAll,
    /// Splice assembled object `i` into the monolithic sections.
    Splice(usize),
    /// Put assembled object `i` into its function's sections.
    Transplant(usize),
    /// Pack the tables, split the sections and write the object.
    PackSplitAndWrite,
    /// Set these flags, pack the object and write it.
    PackAndWrite(Option<u32>),
    Finish,
    Fail,
}

/// The phase after the last assembled object is in: splitting packs and
/// writes at once; otherwise the dependency file comes first.
pub open spec fn after_inserting(run: CFileRun) -> (CFileRun, CFileAction) {
    if run.split_sections {
        (CFileRun { phase: Phase::AwaitWrite, ..run }, CFileAction::PackSplitAndWrite)
    } else {
        (CFileRun { phase: Phase::AwaitFinalDeps, ..run }, CFileAction::WriteDependencies)
    }
}

/// Putting in assembled object `i` of `total`.
pub open spec fn insert_step(run: CFileRun, i: usize, total: usize) -> (CFileRun, CFileAction) {
    (
        CFileRun { phase: Phase::Inserting { next: i, total }, ..run },
        if run.split_sections {
            CFileAction::Splice(i)
        } else {
            CFileAction::Transplant(i)
        },
    )
}

/// The next state and action. A C file without assembly is compiled as
/// it is, its dependencies written, and the object split (with the flags
/// set), or its flags patched, or written as it is. With assembly, the
/// stubs are compiled; when splitting, the dependencies are written, the
/// stub symbols merged and each assembled object spliced in before the
/// sections are split; otherwise each assembled object is put into its
/// function's sections and the dependencies written after. A failure, or
/// an event that does not fit the phase, ends the run with `Fail`.
pub open spec fn c_file_step(run: CFileRun, event: CFileEvent) -> (CFileRun, CFileAction) {
    let fail = (CFileRun { phase: Phase::Finished, ..run }, CFileAction::Fail);
    match (run.phase, event) {
        (_, CFileEvent::Failed) => fail,
        (Phase::Start, CFileEvent::Begin) => (
            CFileRun { phase: Phase::AwaitPreprocess, ..run },
            CFileAction::Preprocess,
        ),
        (Phase::AwaitPreprocess, CFileEvent::Preprocessed(n)) => (
            CFileRun { phase: Phase::AwaitCompile(n), ..run },
            if n == 0 {
                CFileAction::CompileSource
            } else {
                CFileAction::CompileStubs
            },
        ),
        (Phase::AwaitCompile(n), CFileEvent::Done) => if n == 0 || run.split_sections {
            (CFileRun { phase: Phase::AwaitDeps(n), ..run }, CFileAction::WriteDependencies)
        } else {
            (CFileRun { phase: Phase::AwaitPrepare(n), ..run }, CFileAction::PrepareTransplant)
        },
        (Phase::AwaitDeps(n), CFileEvent::Done) => if n > 0 {
            (CFileRun { phase: Phase::AwaitMerge(n), ..run }, CFileAction::MergeStubs(run.elf_flags))
        } else if run.split_sections {
            (CFileRun { phase: Phase::AwaitWrite, ..run }, CFileAction::SplitAndWrite(run.elf_flags))
        } else {
            match run.elf_flags {
                Some(f) => (
                    CFileRun { phase: Phase::AwaitWrite, ..run },
                    CFileAction::PatchFlagsAndWrite(f),
                ),
                None => (CFileRun { phase: Phase::AwaitWrite, ..run }, CFileAction::WriteObject),
            }
        },
        (Phase::AwaitMerge(n), CFileEvent::Done) => (
            CFileRun { phase: Phase::AwaitAssemble(n), ..run },
            CFileAction::AssembleAll,
        ),
        (Phase::AwaitPrepare(n), CFileEvent::Done) => (
            CFileRun { phase: Phase::AwaitAssemble(n), ..run },
            CFileAction::AssembleAll,
        ),
        (Phase::AwaitAssemble(n), CFileEvent::Done) => if n > 0 {
            insert_step(run, 0, n)
        } else {
            after_inserting(run)
        },
        (Phase::Inserting { next, total }, CFileEvent::Done) => if next + 1 < total {
            insert_step(run, (next + 1) as usize, total)
        } else {
            after_inserting(run)
        },
        (Phase::AwaitFinalDeps, CFileEvent::Done) => (
            CFileRun { phase: Phase::AwaitWrite, ..run },
            CFileAction::PackAndWrite(run.elf_flags),
        ),
        (Phase::AwaitWrite, CFileEvent::Done) => (
            CFileRun { phase: Phase::Finished, ..run },
            CFileAction::Finish,
        ),
        _ => fail,
    }
}

impl CFileRun {
    /// A run not yet begun, with the options it reads.
    pub fn new(split_sections: bool, elf_flags: Option<u32>) -> (r: CFileRun)
        ensures
            r == (CFileRun { phase: Phase::Start, split_sections, elf_flags }),
    {
        CFileRun { phase: Phase::Start, split_sections, elf_flags }
    }
}

/// Decides the next outside step of processing a C file (see
/// `c_file_step`).
pub fn next_step(run: CFileRun, event: CFileEvent) -> (r: (CFileRun, CFileAction))
    ensures
        r == c_file_step(run, event),
{
    let fail = (CFileRun { phase: Phase::Finished, ..run }, CFileAction::Fail);
    let after = if run.split_sections {
        (CFileRun { phase: Phase::AwaitWrite, ..run }, CFileAction::PackSplitAndWrite)
    } else {
        (CFileRun { phase: Phase::AwaitFinalDeps, ..run }, CFileAction::WriteDependencies)
    };
    match event {
        CFileEvent::Failed => fail,
        CFileEvent::Begin => match run.phase {
            Phase::Start => (
                CFileRun { phase: Phase::AwaitPreprocess, ..run },
                CFileAction::Preprocess,
            ),
            _ => fail,
        },
        CFileEvent::Preprocessed(n) => match run.phase {
            Phase::AwaitPreprocess => (
                CFileRun { phase: Phase::AwaitCompile(n), ..run },
                if n == 0 {
                    CFileAction::CompileSource
                } else {
                    CFileAction::CompileStubs
                },
            ),
            _ => fail,
        },
        CFileEvent::Done => match run.phase {
            Phase::AwaitCompile(n) => if n == 0 || run.split_sections {
                (CFileRun { phase: Phase::AwaitDeps(n), ..run }, CFileAction::WriteDependencies)
            } else {
                (CFileRun { phase: Phase::AwaitPrepare(n), ..run }, CFileAction::PrepareTransplant)
            },
            Phase::AwaitDeps(n) => if n > 0 {
                (
                    CFileRun { phase: Phase::AwaitMerge(n), ..run },
                    CFileAction::MergeStubs(run.elf_flags),
                )
            } else if run.split_sections {
                (
                    CFileRun { phase: Phase::AwaitWrite, ..run },
                    CFileAction::SplitAndWrite(run.elf_flags),
                )
            } else {
                match run.elf_flags {
                    Some(f) => (
                        CFileRun { phase: Phase::AwaitWrite, ..run },
                        CFileAction::PatchFlagsAndWrite(f),
                    ),
                    None => (
                        CFileRun { phase: Phase::AwaitWrite, ..run },
                        CFileAction::WriteObject,
                    ),
                }
            },
            Phase::AwaitMerge(n) => (
                CFileRun { phase: Phase::AwaitAssemble(n), ..run },
                CFileAction::AssembleAll,
            ),
            Phase::AwaitPrepare(n) => (
                CFileRun { phase: Phase::AwaitAssemble(n), ..run },
                CFileAction::AssembleAll,
            ),
            Phase::AwaitAssemble(n) => if n > 0 {
                (
                    CFileRun { phase: Phase::Inserting { next: 0, total: n }, ..run },
                    if run.split_sections {
                        CFileAction::Splice(0)
                    } else {
                        CFileAction::Transplant(0)
                    },
                )
            } else {
                after
            },
            Phase::Inserting { next, total } => if total > 0 && next < total - 1 {
                let i = next + 1;
                (
                    CFileRun { phase: Phase::Inserting { next: i, total }, ..run },
                    if run.split_sections {
                        CFileAction::Splice(i)
                    } else {
                        CFileAction::Transplant(i)
                    },
                )
            } else {
                after
            },
            Phase::AwaitFinalDeps => (
                CFileRun { phase: Phase::AwaitWrite, ..run },
                CFileAction::PackAndWrite(run.elf_flags),
            ),
            Phase::AwaitWrite => (
                CFileRun { phase: Phase::Finished, ..run },
                CFileAction::Finish,
            ),
            _ => fail,
        },
    }
}

/// The state and action after `k` (at least one) `Done` events from `run`.
pub open spec fn after_dones(run: CFileRun, k: nat) -> (CFileRun, CFileAction)
    decreases k,
{
    if k <= 1 {
        c_file_step(run, CFileEvent::Done)
    } else {
        c_file_step(after_dones(run, (k - 1) as nat).0, CFileEvent::Done)
    }
}

/// Once the `n` assembled objects are made, each is put in exactly once
/// and in order (spliced when splitting, else transplanted), one per
/// `Done`; after the last, the run goes on to write the object (when
/// splitting) or the dependency file.
pub proof fn law_each_object_inserted_once(run: CFileRun, n: usize, k: nat)
    requires
        run.phase == Phase::AwaitAssemble(n),
        n > 0,
        1 <= k <= n + 1,
    ensures
        k <= n ==> after_dones(run, k) == insert_step(run, (k - 1) as usize, n),
        k == n + 1 ==> after_dones(run, k) == after_inserting(run),
    decreases k,
{
    if k > 1 {
        law_each_object_inserted_once(run, n, (k - 1) as nat);
    }
}

/// The flags given for the run reach the object whatever the path: a step
/// keeps the run's options, and every action that reads or writes the
/// object carries the run's `elf_flags` (reading with flags before a merge
/// or a split, writing with them after transplanting); an object is
/// patched only with the run's flags and written untouched only where
/// there are none.
pub proof fn law_flags_reach_the_object(run: CFileRun, event: CFileEvent)
    ensures
        ({
            let (next, action) = c_file_step(run, event);
            &&& next.elf_flags == run.elf_flags
            &&& next.split_sections == run.split_sections
            &&& action matches CFileAction::MergeStubs(f) ==> f == run.elf_flags
            &&& action matches CFileAction::SplitAndWrite(f) ==> f == run.elf_flags
            &&& action matches CFileAction::PackAndWrite(f) ==> f == run.elf_flags
            &&& action matches CFileAction::PatchFlagsAndWrite(f) ==> run.elf_flags == Some(f)
            &&& action is WriteObject ==> run.elf_flags is None
        }),
{
}

/// With assembly and split sections, the run reads the compiled object
/// with the given flags before merging: after the dependency file, the
/// next action is `MergeStubs` with the run's flags.
pub proof fn law_split_run_merges_with_flags(run: CFileRun, n: usize)
    requires
        run.phase == Phase::AwaitDeps(n),
        n > 0,
    ensures
        c_file_step(run, CFileEvent::Done).1 == CFileAction::MergeStubs(run.elf_flags),
{
}

} // verus!
