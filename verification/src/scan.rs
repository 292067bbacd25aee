//! The course of a scan: which steps it takes, in which order.
use vstd::prelude::*;

verus! {

/// A step of a scan.
#[derive(Debug, Clone, Copy, PartialEq, Eq, Structural)]
pub enum ScanStep {
    /// Create the data directory, if it is not there.
    DataDir,
    /// Take the scan lock, or give up.
    Lock,
    /// Open the index, creating it if it is not there.
    OpenIndex,
    /// Open the index that is there, for reading only.
    ReadIndex,
    /// Open the file vectors.
    OpenVectors,
    /// Start a new scan generation.
    Generation,
    /// Walk the root at this position, and write its files batch by batch.
    Walk { root: usize },
    /// Walk the root at this position, and only count its files by what would become of them.
    Count { root: usize },
    /// Give every directory with indexed files a row.
    Directories,
    /// Zero the vectors of the files that were not seen.
    ClearFileVectors,
    /// Zero the vectors of the directories that were not seen.
    ClearDirVectors,
    /// Delete the rows that were not seen.
    DeleteUnseen,
    /// Write the file vectors through.
    Flush,
    /// Give every directory its vector.
    Rollup,
    /// Record when the scan ended, and with which model.
    Stamp,
}

/// A step, if it is taken.
pub open spec fn step_if(taken: bool, s: ScanStep) -> Seq<ScanStep> {
    if taken {
        seq![s]
    } else {
        seq![]
    }
}

/// One walk per root.
pub open spec fn walks(dry_run: bool, roots: nat) -> Seq<ScanStep> {
    Seq::new(
        roots,
        |i: int|
            if dry_run {
                ScanStep::Count { root: i as usize }
            } else {
                ScanStep::Walk { root: i as usize }
            },
    )
}

/// What comes before the walks.
pub open spec fn opening(vectors: bool) -> Seq<ScanStep> {
    seq![ScanStep::DataDir, ScanStep::Lock, ScanStep::OpenIndex] + step_if(
        vectors,
        ScanStep::OpenVectors,
    ) + seq![ScanStep::Generation]
}

/// What comes after the walks.
pub open spec fn closing(vectors: bool, model: bool) -> Seq<ScanStep> {
    seq![ScanStep::Directories] + step_if(vectors, ScanStep::ClearFileVectors) + step_if(
        model,
        ScanStep::ClearDirVectors,
    ) + seq![ScanStep::DeleteUnseen] + step_if(vectors, ScanStep::Flush) + step_if(
        vectors,
        ScanStep::Rollup,
    ) + seq![ScanStep::Stamp]
}

/// The steps of a scan over `roots` roots. `present` says whether there is an index, `model` if
/// a model is loaded, `embed` whether vectors are wanted; with both, vectors are written. A dry run
/// reads the index where there is one, and counts.
pub open spec fn course(dry_run: bool, present: bool, embed: bool, model: bool, roots: nat) -> Seq<
    ScanStep,
> {
    if dry_run {
        step_if(present, ScanStep::ReadIndex) + walks(true, roots)
    } else {
        opening(embed && model) + walks(false, roots) + closing(embed && model, model)
    }
}

/// Plans a scan.
pub fn scan_plan(dry_run: bool, present: bool, embed: bool, model: bool, roots: usize) -> (r: Vec<
    ScanStep,
>)
    ensures
        r@ == course(dry_run, present, embed, model, roots as nat),
{
    let vectors = embed && model;
    let mut v: Vec<ScanStep> = Vec::new();
    if dry_run {
        if present {
            v.push(ScanStep::ReadIndex);
        }
    } else {
        v.push(ScanStep::DataDir);
        v.push(ScanStep::Lock);
        v.push(ScanStep::OpenIndex);
        if vectors {
            v.push(ScanStep::OpenVectors);
        }
        v.push(ScanStep::Generation);
    }
    let ghost head = v@;
    let mut i: usize = 0;
    proof {
        assert(head =~= if dry_run {
            step_if(present, ScanStep::ReadIndex)
        } else {
            opening(vectors)
        });
        assert(v@ =~= head + walks(dry_run, 0));
    }
    while i < roots
        invariant
            i <= roots,
            v@ == head + walks(dry_run, i as nat),
        decreases roots - i,
    {
        if dry_run {
            v.push(ScanStep::Count { root: i });
        } else {
            v.push(ScanStep::Walk { root: i });
        }
        i += 1;
        proof {
            assert(v@ =~= head + walks(dry_run, i as nat));
        }
    }
    if dry_run {
        proof {
            assert(v@ =~= course(true, present, embed, model, roots as nat));
        }
        return v;
    }
    let ghost middle = v@;
    v.push(ScanStep::Directories);
    if vectors {
        v.push(ScanStep::ClearFileVectors);
    }
    if model {
        v.push(ScanStep::ClearDirVectors);
    }
    v.push(ScanStep::DeleteUnseen);
    if vectors {
        v.push(ScanStep::Flush);
        v.push(ScanStep::Rollup);
    }
    v.push(ScanStep::Stamp);
    proof {
        assert(v@ =~= middle + closing(vectors, model));
    }
    v
}

/// A dry run creates nothing and writes nothing: it reads the index, where there is one, and counts
/// the files of each root.
pub proof fn a_dry_run_writes_nothing(present: bool, embed: bool, model: bool, roots: nat, i: int)
    requires
        0 <= i < course(true, present, embed, model, roots).len(),
    ensures
        ({
            let step = course(true, present, embed, model, roots)[i];
            step is Count || (step == ScanStep::ReadIndex && present)
        }),
{
}

/// Nothing is written before the scan lock is held, but for the directory that the lock is kept in.
pub proof fn the_lock_comes_first(present: bool, embed: bool, model: bool, roots: nat, i: int)
    requires
        0 <= i < course(false, present, embed, model, roots).len(),
    ensures
        ({
            let c = course(false, present, embed, model, roots);
            &&& c[1] == ScanStep::Lock
            &&& i < 1 ==> c[i] == ScanStep::DataDir
        }),
{
}

/// A stale vector never outlives its row: with vectors, those of unseen files and directories are
/// zeroed, and all of that happens before any row is deleted.
pub proof fn vectors_are_cleared_before_their_rows_go(
    present: bool,
    embed: bool,
    model: bool,
    roots: nat,
)
    ensures
        ({
            let c = course(false, present, embed, model, roots);
            &&& c.contains(ScanStep::DeleteUnseen)
            &&& embed && model ==> c.contains(ScanStep::ClearFileVectors)
            &&& model ==> c.contains(ScanStep::ClearDirVectors)
            &&& forall|i: int, j: int|
                0 <= i < c.len() && 0 <= j < c.len() && c[j] == ScanStep::DeleteUnseen && (c[i]
                    == ScanStep::ClearFileVectors || c[i] == ScanStep::ClearDirVectors) ==> i < j
        }),
{
    let c = course(false, present, embed, model, roots);
    let vectors = embed && model;
    let end = closing(vectors, model);
    let base = (opening(vectors) + walks(false, roots)).len() as int;
    let a: int = 1;
    let b: int = if vectors {
        2
    } else {
        1
    };
    let d: int = if model {
        b + 1
    } else {
        b
    };
    assert(end[d] == ScanStep::DeleteUnseen);
    assert(c[base + d] == end[d]);
    if vectors {
        assert(end[a] == ScanStep::ClearFileVectors);
        assert(c[base + a] == end[a]);
    }
    if model {
        assert(end[b] == ScanStep::ClearDirVectors);
        assert(c[base + b] == end[b]);
    }
}

/// Directory vectors are computed after the files were walked and after the rows of deleted files
/// are gone, so those contribute to no average; and only where there are vectors to average.
pub proof fn directories_are_averaged_last(
    present: bool,
    embed: bool,
    model: bool,
    roots: nat,
    i: int,
    j: int,
)
    requires
        ({
            let c = course(false, present, embed, model, roots);
            &&& 0 <= i < c.len()
            &&& 0 <= j < c.len()
            &&& c[j] == ScanStep::Rollup
        }),
    ensures
        embed && model,
        course(false, present, embed, model, roots)[i] is Walk ==> i < j,
        course(false, present, embed, model, roots)[i] == ScanStep::DeleteUnseen ==> i < j,
{
}

/// The course of a scan, step by step, with vectors and without; and that of a dry run.
pub proof fn a_scan_runs_its_course(roots: nat, present: bool, embed: bool, model: bool)
    ensures
        course(false, present, true, true, roots) == seq![
            ScanStep::DataDir,
            ScanStep::Lock,
            ScanStep::OpenIndex,
            ScanStep::OpenVectors,
            ScanStep::Generation,
        ] + walks(false, roots) + seq![
            ScanStep::Directories,
            ScanStep::ClearFileVectors,
            ScanStep::ClearDirVectors,
            ScanStep::DeleteUnseen,
            ScanStep::Flush,
            ScanStep::Rollup,
            ScanStep::Stamp,
        ],
        course(false, present, false, true, roots) == seq![
            ScanStep::DataDir,
            ScanStep::Lock,
            ScanStep::OpenIndex,
            ScanStep::Generation,
        ] + walks(false, roots) + seq![
            ScanStep::Directories,
            ScanStep::ClearDirVectors,
            ScanStep::DeleteUnseen,
            ScanStep::Stamp,
        ],
        course(false, present, embed, false, roots) == seq![
            ScanStep::DataDir,
            ScanStep::Lock,
            ScanStep::OpenIndex,
            ScanStep::Generation,
        ] + walks(false, roots) + seq![
            ScanStep::Directories,
            ScanStep::DeleteUnseen,
            ScanStep::Stamp,
        ],
        course(true, true, embed, model, roots) == seq![ScanStep::ReadIndex] + walks(true, roots),
        course(true, false, embed, model, roots) == walks(true, roots),
{
    assert(course(false, present, true, true, roots) =~= seq![
        ScanStep::DataDir,
        ScanStep::Lock,
        ScanStep::OpenIndex,
        ScanStep::OpenVectors,
        ScanStep::Generation,
    ] + walks(false, roots) + seq![
        ScanStep::Directories,
        ScanStep::ClearFileVectors,
        ScanStep::ClearDirVectors,
        ScanStep::DeleteUnseen,
        ScanStep::Flush,
        ScanStep::Rollup,
        ScanStep::Stamp,
    ]);
    assert(course(false, present, false, true, roots) =~= seq![
        ScanStep::DataDir,
        ScanStep::Lock,
        ScanStep::OpenIndex,
        ScanStep::Generation,
    ] + walks(false, roots) + seq![
        ScanStep::Directories,
        ScanStep::ClearDirVectors,
        ScanStep::DeleteUnseen,
        ScanStep::Stamp,
    ]);
    assert(course(false, present, embed, false, roots) =~= seq![
        ScanStep::DataDir,
        ScanStep::Lock,
        ScanStep::OpenIndex,
        ScanStep::Generation,
    ] + walks(false, roots) + seq![
        ScanStep::Directories,
        ScanStep::DeleteUnseen,
        ScanStep::Stamp,
    ]);
    assert(course(true, false, embed, model, roots) =~= walks(true, roots));
}

/// Every root is walked, or counted in a dry run, once and in order.
pub proof fn every_root_is_walked(dry_run: bool, roots: nat, i: int)
    requires
        0 <= i < roots <= usize::MAX,
    ensures
        walks(dry_run, roots).len() == roots,
        dry_run ==> walks(dry_run, roots)[i] == (ScanStep::Count { root: i as usize }),
        !dry_run ==> walks(dry_run, roots)[i] == (ScanStep::Walk { root: i as usize }),
{
}

} // verus!
