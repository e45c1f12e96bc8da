//! How a compacted store takes the place of the old one, and how an interrupted
//! swap is undone or completed.
//!
//! The replacement is written beside the store. A marker then journals the swap:
//! the old files are set aside, the new ones are moved in, the old ones are
//! removed. The functions here decide which files to move and remove; the caller
//! does so, one step after the other, syncing the directory after each.
use vstd::prelude::*;
use vstd::string::*;

use crate::error::{invalid, ErrorView, QuiverError};
use crate::storage::vecstore::bytes_view;

verus! {

/// A file that takes part in the swap.
#[derive(Debug, Clone, Copy, PartialEq, Eq, Structural)]
pub enum StoreFile {
    /// The vector file.
    Data,
    /// The write-ahead log.
    Wal,
    /// The metadata snapshot.
    Meta,
    /// The vector file of the replacement.
    TempData,
    /// The log of the replacement.
    TempWal,
    /// The snapshot of the replacement.
    TempMeta,
    /// The old vector file, set aside.
    BackupData,
    /// The old log, set aside.
    BackupWal,
    /// The old snapshot, set aside.
    BackupMeta,
    /// The journal of the swap.
    Marker,
}

/// How far a swap has come.
#[derive(Debug, Clone, Copy, PartialEq, Eq, Structural)]
pub enum Phase {
    /// The replacement is durable.
    Prepared,
    /// The old files are set aside.
    OldMoved,
    /// The new files are in place.
    Installed,
}

/// One change to the files.
#[derive(Debug, Clone, Copy, PartialEq, Eq, Structural)]
pub enum FileStep {
    /// Rename a file that exists.
    Move { from: StoreFile, to: StoreFile },
    /// Rename a file if it exists.
    MoveIfPresent { from: StoreFile, to: StoreFile },
    /// Remove a file if it exists.
    Remove { file: StoreFile },
    /// Write the marker.
    Mark { phase: Phase },
}

impl Phase {
    /// What the marker holds in this phase.
    #[verifier::opaque]
    pub open spec fn text(self) -> Seq<u8> {
        match self {
            Phase::Prepared => seq![112u8, 114u8, 101u8, 112u8, 97u8, 114u8, 101u8, 100u8],
            Phase::OldMoved => seq![111u8, 108u8, 100u8, 95u8, 109u8, 111u8, 118u8, 101u8, 100u8],
            Phase::Installed => seq![
                105u8, 110u8, 115u8, 116u8, 97u8, 108u8, 108u8, 101u8, 100u8,
            ],
        }
    }

    /// What the marker holds in this phase.
    pub fn bytes(self) -> (bytes: Vec<u8>)
        ensures
            bytes@ == self.text(),
    {
        let bytes: Vec<u8> = match self {
            Phase::Prepared => vec![112, 114, 101, 112, 97, 114, 101, 100],
            Phase::OldMoved => vec![111, 108, 100, 95, 109, 111, 118, 101, 100],
            Phase::Installed => vec![105, 110, 115, 116, 97, 108, 108, 101, 100],
        };
        proof {
            reveal(Phase::text);
        }
        assert(bytes@ =~= self.text());
        bytes
    }
}

/// What each file holds, if it exists.
pub struct Files {
    pub data: Option<Seq<u8>>,
    pub wal: Option<Seq<u8>>,
    pub meta: Option<Seq<u8>>,
    pub temp_data: Option<Seq<u8>>,
    pub temp_wal: Option<Seq<u8>>,
    pub temp_meta: Option<Seq<u8>>,
    pub backup_data: Option<Seq<u8>>,
    pub backup_wal: Option<Seq<u8>>,
    pub backup_meta: Option<Seq<u8>>,
    pub marker: Option<Seq<u8>>,
}

impl Files {
    /// What a file holds, if it exists.
    pub open spec fn at(self, file: StoreFile) -> Option<Seq<u8>> {
        match file {
            StoreFile::Data => self.data,
            StoreFile::Wal => self.wal,
            StoreFile::Meta => self.meta,
            StoreFile::TempData => self.temp_data,
            StoreFile::TempWal => self.temp_wal,
            StoreFile::TempMeta => self.temp_meta,
            StoreFile::BackupData => self.backup_data,
            StoreFile::BackupWal => self.backup_wal,
            StoreFile::BackupMeta => self.backup_meta,
            StoreFile::Marker => self.marker,
        }
    }

    /// The files once one of them is written or removed.
    pub open spec fn set(self, file: StoreFile, content: Option<Seq<u8>>) -> Files {
        match file {
            StoreFile::Data => Files { data: content, ..self },
            StoreFile::Wal => Files { wal: content, ..self },
            StoreFile::Meta => Files { meta: content, ..self },
            StoreFile::TempData => Files { temp_data: content, ..self },
            StoreFile::TempWal => Files { temp_wal: content, ..self },
            StoreFile::TempMeta => Files { temp_meta: content, ..self },
            StoreFile::BackupData => Files { backup_data: content, ..self },
            StoreFile::BackupWal => Files { backup_wal: content, ..self },
            StoreFile::BackupMeta => Files { backup_meta: content, ..self },
            StoreFile::Marker => Files { marker: content, ..self },
        }
    }

    /// The files after one step.
    pub open spec fn step(self, step: FileStep) -> Files {
        match step {
            FileStep::Move { from, to } => self.set(to, self.at(from)).set(from, None),
            FileStep::MoveIfPresent { from, to } => if self.at(from) is Some {
                self.set(to, self.at(from)).set(from, None)
            } else {
                self
            },
            FileStep::Remove { file } => self.set(file, None),
            FileStep::Mark { phase } => self.set(StoreFile::Marker, Some(phase.text())),
        }
    }

    /// The files after the first `n` of some steps.
    pub open spec fn after(self, steps: Seq<FileStep>, n: int) -> Files
        decreases n,
    {
        if n <= 0 {
            self
        } else {
            self.after(steps, n - 1).step(steps[n - 1])
        }
    }

    /// What recovery makes of the files.
    pub open spec fn recovered(self) -> Files {
        let plan = recovery_plan(self.marker, self.seen());
        self.after(plan, plan.len() as int)
    }

    /// The files without anything that a swap leaves beside the store.
    pub open spec fn cleaned(self) -> Files {
        Files {
            temp_data: None,
            temp_wal: None,
            temp_meta: None,
            backup_data: None,
            backup_wal: None,
            backup_meta: None,
            marker: None,
            ..self
        }
    }
}

/// Which files exist.
#[derive(Debug, Clone, Copy, PartialEq, Eq, Structural)]
pub struct SeenFiles {
    pub data: bool,
    pub wal: bool,
    pub meta: bool,
    pub temp_data: bool,
    pub temp_wal: bool,
    pub temp_meta: bool,
    pub backup_data: bool,
    pub backup_wal: bool,
    pub backup_meta: bool,
}

impl Files {
    /// Which files exist.
    pub open spec fn seen(self) -> SeenFiles {
        SeenFiles {
            data: self.data is Some,
            wal: self.wal is Some,
            meta: self.meta is Some,
            temp_data: self.temp_data is Some,
            temp_wal: self.temp_wal is Some,
            temp_meta: self.temp_meta is Some,
            backup_data: self.backup_data is Some,
            backup_wal: self.backup_wal is Some,
            backup_meta: self.backup_meta is Some,
        }
    }
}

/// The steps that put a durable replacement in the place of the store.
pub open spec fn swap_plan() -> Seq<FileStep> {
    seq![
        FileStep::Mark { phase: Phase::Prepared },
        FileStep::Move { from: StoreFile::Data, to: StoreFile::BackupData },
        FileStep::Move { from: StoreFile::Wal, to: StoreFile::BackupWal },
        FileStep::MoveIfPresent { from: StoreFile::Meta, to: StoreFile::BackupMeta },
        FileStep::Mark { phase: Phase::OldMoved },
        FileStep::Move { from: StoreFile::TempData, to: StoreFile::Data },
        FileStep::Move { from: StoreFile::TempWal, to: StoreFile::Wal },
        FileStep::MoveIfPresent { from: StoreFile::TempMeta, to: StoreFile::Meta },
        FileStep::Mark { phase: Phase::Installed },
        FileStep::Remove { file: StoreFile::BackupData },
        FileStep::Remove { file: StoreFile::BackupWal },
        FileStep::Remove { file: StoreFile::BackupMeta },
        FileStep::Remove { file: StoreFile::Marker },
    ]
}

/// The steps that remove what a swap leaves beside the store; the marker goes
/// last.
pub open spec fn cleanup_plan() -> Seq<FileStep> {
    seq![
        FileStep::Remove { file: StoreFile::TempData },
        FileStep::Remove { file: StoreFile::TempWal },
        FileStep::Remove { file: StoreFile::TempMeta },
        FileStep::Remove { file: StoreFile::BackupData },
        FileStep::Remove { file: StoreFile::BackupWal },
        FileStep::Remove { file: StoreFile::BackupMeta },
        FileStep::Remove { file: StoreFile::Marker },
    ]
}

/// The step that brings `to` back from `from`, if it is missing and `from` is not.
pub open spec fn restore_plan(
    to_exists: bool,
    from_exists: bool,
    from: StoreFile,
    to: StoreFile,
) -> Seq<FileStep> {
    if !to_exists && from_exists {
        seq![FileStep::Move { from, to }]
    } else {
        Seq::empty()
    }
}

/// Whether an interrupted swap is completed, not undone: the old files had been
/// set aside, or the vector file and the log are both there again.
pub open spec fn goes_forward(marker: Seq<u8>, seen: SeenFiles) -> bool {
    marker == Phase::OldMoved.text() || marker == Phase::Installed.text() || (seen.data && seen.wal
        && marker != Phase::Prepared.text())
}

/// The steps that bring back what an interrupted swap left missing: from the
/// replacement where the swap is completed, from the files set aside where it
/// is undone. A snapshot that is missing on the one side is taken from the other.
#[verifier::opaque]
pub open spec fn bring_back_plan(marker: Seq<u8>, seen: SeenFiles) -> Seq<FileStep> {
    if goes_forward(marker, seen) {
        restore_plan(seen.data, seen.temp_data, StoreFile::TempData, StoreFile::Data)
            + restore_plan(seen.wal, seen.temp_wal, StoreFile::TempWal, StoreFile::Wal)
            + restore_plan(seen.meta, seen.temp_meta, StoreFile::TempMeta, StoreFile::Meta)
            + restore_plan(
            seen.meta || seen.temp_meta,
            seen.backup_meta,
            StoreFile::BackupMeta,
            StoreFile::Meta,
        )
    } else {
        restore_plan(seen.data, seen.backup_data, StoreFile::BackupData, StoreFile::Data)
            + restore_plan(seen.wal, seen.backup_wal, StoreFile::BackupWal, StoreFile::Wal)
            + restore_plan(seen.meta, seen.backup_meta, StoreFile::BackupMeta, StoreFile::Meta)
            + restore_plan(
            seen.meta || seen.backup_meta,
            seen.temp_meta,
            StoreFile::TempMeta,
            StoreFile::Meta,
        )
    }
}

/// Whether the vector file and the log are there or can be brought back.
pub open spec fn can_recover(marker: Option<Seq<u8>>, seen: SeenFiles) -> bool {
    match marker {
        None => true,
        Some(m) => if goes_forward(m, seen) {
            (seen.data || seen.temp_data) && (seen.wal || seen.temp_wal)
        } else {
            (seen.data || seen.backup_data) && (seen.wal || seen.backup_wal)
        },
    }
}

/// The steps of recovery. Without a marker there is nothing to do. Where the
/// vector file or the log cannot be brought back, nothing is removed.
pub open spec fn recovery_plan(marker: Option<Seq<u8>>, seen: SeenFiles) -> Seq<FileStep> {
    match marker {
        None => Seq::empty(),
        Some(m) => bring_back_plan(m, seen) + (if can_recover(marker, seen) {
            cleanup_plan()
        } else {
            Seq::empty()
        }),
    }
}

/// The steps that put a durable replacement in the place of the store.
pub fn swap_steps() -> (steps: Vec<FileStep>)
    ensures
        steps@ == swap_plan(),
{
    let steps: Vec<FileStep> = vec![
        FileStep::Mark { phase: Phase::Prepared },
        FileStep::Move { from: StoreFile::Data, to: StoreFile::BackupData },
        FileStep::Move { from: StoreFile::Wal, to: StoreFile::BackupWal },
        FileStep::MoveIfPresent { from: StoreFile::Meta, to: StoreFile::BackupMeta },
        FileStep::Mark { phase: Phase::OldMoved },
        FileStep::Move { from: StoreFile::TempData, to: StoreFile::Data },
        FileStep::Move { from: StoreFile::TempWal, to: StoreFile::Wal },
        FileStep::MoveIfPresent { from: StoreFile::TempMeta, to: StoreFile::Meta },
        FileStep::Mark { phase: Phase::Installed },
        FileStep::Remove { file: StoreFile::BackupData },
        FileStep::Remove { file: StoreFile::BackupWal },
        FileStep::Remove { file: StoreFile::BackupMeta },
        FileStep::Remove { file: StoreFile::Marker },
    ];
    assert(steps@ =~= swap_plan());
    steps
}

fn same_bytes(a: &[u8], b: &Vec<u8>) -> (r: bool)
    ensures
        r == (a@ == b@),
{
    if a.len() != b.len() {
        return false;
    }
    for i in 0..a.len()
        invariant
            a@.len() == b@.len(),
            forall|j: int| 0 <= j < i ==> a@[j] == b@[j],
    {
        if a[i] != b[i] {
            return false;
        }
    }
    assert(a@ =~= b@);
    true
}

fn push_restore(
    steps: &mut Vec<FileStep>,
    to_exists: bool,
    from_exists: bool,
    from: StoreFile,
    to: StoreFile,
)
    ensures
        final(steps)@ == old(steps)@ + restore_plan(to_exists, from_exists, from, to),
{
    let ghost before = steps@;
    if !to_exists && from_exists {
        steps.push(FileStep::Move { from, to });
    }
    assert(steps@ =~= before + restore_plan(to_exists, from_exists, from, to));
}

/// The steps that bring back what an interrupted swap left missing, and whether
/// that brings back the vector file and the log.
fn bring_back(marker: &[u8], seen: SeenFiles) -> (plan: (Vec<FileStep>, bool))
    ensures
        plan.0@ == bring_back_plan(marker@, seen),
        plan.1 == can_recover(Some(marker@), seen),
{
    proof {
        reveal(bring_back_plan);
    }
    let mut steps: Vec<FileStep> = Vec::new();
    let prepared: bool = same_bytes(marker, &Phase::Prepared.bytes());
    let moved: bool = same_bytes(marker, &Phase::OldMoved.bytes());
    let installed: bool = same_bytes(marker, &Phase::Installed.bytes());
    if moved || installed || (seen.data && seen.wal && !prepared) {
        push_restore(&mut steps, seen.data, seen.temp_data, StoreFile::TempData, StoreFile::Data);
        push_restore(&mut steps, seen.wal, seen.temp_wal, StoreFile::TempWal, StoreFile::Wal);
        push_restore(&mut steps, seen.meta, seen.temp_meta, StoreFile::TempMeta, StoreFile::Meta);
        push_restore(
            &mut steps,
            seen.meta || seen.temp_meta,
            seen.backup_meta,
            StoreFile::BackupMeta,
            StoreFile::Meta,
        );
        assert(steps@ =~= bring_back_plan(marker@, seen));
        (steps, (seen.data || seen.temp_data) && (seen.wal || seen.temp_wal))
    } else {
        push_restore(
            &mut steps,
            seen.data,
            seen.backup_data,
            StoreFile::BackupData,
            StoreFile::Data,
        );
        push_restore(&mut steps, seen.wal, seen.backup_wal, StoreFile::BackupWal, StoreFile::Wal);
        push_restore(
            &mut steps,
            seen.meta,
            seen.backup_meta,
            StoreFile::BackupMeta,
            StoreFile::Meta,
        );
        push_restore(
            &mut steps,
            seen.meta || seen.backup_meta,
            seen.temp_meta,
            StoreFile::TempMeta,
            StoreFile::Meta,
        );
        assert(steps@ =~= bring_back_plan(marker@, seen));
        (steps, (seen.data || seen.backup_data) && (seen.wal || seen.backup_wal))
    }
}

/// Decides how to recover from an interrupted swap, from the bytes of the marker
/// and which files exist: the steps to take and, where the vector file or the
/// log cannot be brought back, the error to report after them.
pub fn recover_compaction(marker: Option<&[u8]>, seen: SeenFiles) -> (plan: (
    Vec<FileStep>,
    Result<(), QuiverError>,
))
    ensures
        plan.0@ == recovery_plan(bytes_view(marker), seen),
        match plan.1 {
            Ok(_) => can_recover(bytes_view(marker), seen),
            Err(e) => !can_recover(bytes_view(marker), seen) && e@ == ErrorView::InvalidFormat(
                "Unable to recover interrupted compaction"@,
            ),
        },
{
    match marker {
        None => (Vec::new(), Ok(())),
        Some(phase) => {
            let (mut steps, found) = bring_back(phase, seen);
            let ghost before = steps@;
            if found {
                steps.push(FileStep::Remove { file: StoreFile::TempData });
                steps.push(FileStep::Remove { file: StoreFile::TempWal });
                steps.push(FileStep::Remove { file: StoreFile::TempMeta });
                steps.push(FileStep::Remove { file: StoreFile::BackupData });
                steps.push(FileStep::Remove { file: StoreFile::BackupWal });
                steps.push(FileStep::Remove { file: StoreFile::BackupMeta });
                steps.push(FileStep::Remove { file: StoreFile::Marker });
                assert(steps@ =~= before + cleanup_plan());
                (steps, Ok(()))
            } else {
                assert(steps@ =~= before + Seq::empty());
                (steps, Err(invalid("Unable to recover interrupted compaction")))
            }
        },
    }
}

/// The files beside which a store keeps what a swap needs.
#[derive(Debug)]
pub struct CompactionPaths {
    pub temp_data: String,
    pub temp_wal: String,
    pub temp_meta: String,
    pub backup_data: String,
    pub backup_wal: String,
    pub backup_meta: String,
    pub marker: String,
}

/// The path of a file beside another: its path with `suffix` behind it.
pub fn sidecar_path(path: &str, suffix: &str) -> (sidecar: String)
    ensures
        sidecar@ == path@ + suffix@,
{
    let mut sidecar = path.to_owned();
    sidecar.append(suffix);
    sidecar
}

impl CompactionPaths {
    /// The paths that the swap of a store uses. The snapshot of the replacement
    /// stands beside the replacement's own vector file.
    pub fn new(data_path: &str, wal_path: &str) -> (paths: Self)
        ensures
            paths.temp_data@ == data_path@ + ".compact.tmp"@,
            paths.temp_wal@ == wal_path@ + ".compact.tmp"@,
            paths.temp_meta@ == data_path@ + ".compact.tmp.meta"@,
            paths.temp_meta@ == paths.temp_data@ + ".meta"@,
            paths.backup_data@ == data_path@ + ".compact.bak"@,
            paths.backup_wal@ == wal_path@ + ".compact.bak"@,
            paths.backup_meta@ == data_path@ + ".meta.compact.bak"@,
            paths.marker@ == data_path@ + ".compact.marker"@,
    {
        let paths = Self {
            temp_data: sidecar_path(data_path, ".compact.tmp"),
            temp_wal: sidecar_path(wal_path, ".compact.tmp"),
            temp_meta: sidecar_path(data_path, ".compact.tmp.meta"),
            backup_data: sidecar_path(data_path, ".compact.bak"),
            backup_wal: sidecar_path(wal_path, ".compact.bak"),
            backup_meta: sidecar_path(data_path, ".meta.compact.bak"),
            marker: sidecar_path(data_path, ".compact.marker"),
        };
        proof {
            reveal_strlit(".compact.tmp");
            reveal_strlit(".meta");
            reveal_strlit(".compact.tmp.meta");
            assert(".compact.tmp"@ + ".meta"@ =~= ".compact.tmp.meta"@);
            assert(paths.temp_meta@ =~= paths.temp_data@ + ".meta"@);
        }
        paths
    }
}

/// A vector file, a log and perhaps a snapshot.
pub struct Trio {
    pub data: Seq<u8>,
    pub wal: Seq<u8>,
    pub meta: Option<Seq<u8>>,
}

/// The files before a swap: a store, and its replacement beside it.
pub open spec fn before_swap(old: Trio, new: Trio) -> Files {
    Files {
        data: Some(old.data),
        wal: Some(old.wal),
        meta: old.meta,
        temp_data: Some(new.data),
        temp_wal: Some(new.wal),
        temp_meta: new.meta,
        backup_data: None,
        backup_wal: None,
        backup_meta: None,
        marker: None,
    }
}

/// Whether the files are those of a store and nothing else; a snapshot that the
/// store has none of may have been left by the other store.
pub open spec fn holds_trio(f: Files, one: Trio, other: Trio) -> bool {
    &&& f.data == Some(one.data)
    &&& f.wal == Some(one.wal)
    &&& f.meta == one.meta || (one.meta is None && f.meta == other.meta)
    &&& f == f.cleaned()
}

proof fn after_concat(f: Files, a: Seq<FileStep>, b: Seq<FileStep>, n: int)
    requires
        0 <= n <= b.len(),
    ensures
        f.after(a + b, a.len() + n) == f.after(a, a.len() as int).after(b, n),
        forall|m: int| 0 <= m <= a.len() ==> #[trigger] f.after(a + b, m) == f.after(a, m),
    decreases n,
{
    assert forall|m: int| 0 <= m <= a.len() implies #[trigger] f.after(a + b, m) == f.after(a, m) by {
        after_prefix(f, a, b, m);
    }
    if n > 0 {
        after_concat(f, a, b, n - 1);
        assert((a + b)[a.len() + n - 1] == b[n - 1]);
    }
}

proof fn after_prefix(f: Files, a: Seq<FileStep>, b: Seq<FileStep>, m: int)
    requires
        0 <= m <= a.len(),
    ensures
        f.after(a + b, m) == f.after(a, m),
    decreases m,
{
    if m > 0 {
        after_prefix(f, a, b, m - 1);
    }
}

/// The files once `from` has taken the place of `to`, if `to` is missing and
/// `from` is not.
pub open spec fn restored(f: Files, from: StoreFile, to: StoreFile) -> Files {
    if f.at(to) is None && f.at(from) is Some {
        f.step(FileStep::Move { from, to })
    } else {
        f
    }
}

/// The files once what an interrupted swap left missing was brought back.
pub open spec fn brought_back(f: Files) -> Files {
    if goes_forward(f.marker->0, f.seen()) {
        restored(
            restored(
                restored(
                    restored(f, StoreFile::TempData, StoreFile::Data),
                    StoreFile::TempWal,
                    StoreFile::Wal,
                ),
                StoreFile::TempMeta,
                StoreFile::Meta,
            ),
            StoreFile::BackupMeta,
            StoreFile::Meta,
        )
    } else {
        restored(
            restored(
                restored(
                    restored(f, StoreFile::BackupData, StoreFile::Data),
                    StoreFile::BackupWal,
                    StoreFile::Wal,
                ),
                StoreFile::BackupMeta,
                StoreFile::Meta,
            ),
            StoreFile::TempMeta,
            StoreFile::Meta,
        )
    }
}

proof fn after_restore(f: Files, to_exists: bool, from_exists: bool, from: StoreFile, to: StoreFile)
    requires
        to_exists == (f.at(to) is Some),
        from_exists == (f.at(from) is Some),
    ensures
        ({
            let plan = restore_plan(to_exists, from_exists, from, to);
            f.after(plan, plan.len() as int) == restored(f, from, to)
        }),
{
    reveal_with_fuel(Files::after, 2);
}

/// The four places where recovery may move a file.
spec fn restore_at(f: Files, i: int) -> (StoreFile, StoreFile) {
    if goes_forward(f.marker->0, f.seen()) {
        if i == 0 {
            (StoreFile::TempData, StoreFile::Data)
        } else if i == 1 {
            (StoreFile::TempWal, StoreFile::Wal)
        } else if i == 2 {
            (StoreFile::TempMeta, StoreFile::Meta)
        } else {
            (StoreFile::BackupMeta, StoreFile::Meta)
        }
    } else {
        if i == 0 {
            (StoreFile::BackupData, StoreFile::Data)
        } else if i == 1 {
            (StoreFile::BackupWal, StoreFile::Wal)
        } else if i == 2 {
            (StoreFile::BackupMeta, StoreFile::Meta)
        } else {
            (StoreFile::TempMeta, StoreFile::Meta)
        }
    }
}

/// The files after the first `i` of these places.
spec fn stage(f: Files, i: int) -> Files
    decreases i,
{
    if i <= 0 {
        f
    } else {
        let (from, to) = restore_at(f, i - 1);
        restored(stage(f, i - 1), from, to)
    }
}

proof fn stages(f: Files)
    ensures
        stage(f, 4) == brought_back(f),
{
    reveal_with_fuel(stage, 5);
}

#[verifier::opaque]
spec fn piece(f: Files, i: int) -> Seq<FileStep> {
    let (from, to) = restore_at(f, i);
    let g = stage(f, i);
    restore_plan(g.at(to) is Some, g.at(from) is Some, from, to)
}

proof fn bring_back_pieces(f: Files)
    requires
        f.marker is Some,
    ensures
        bring_back_plan(f.marker->0, f.seen()) == piece(f, 0) + piece(f, 1) + piece(f, 2) + piece(
            f,
            3,
        ),
{
    reveal(bring_back_plan);
    reveal(piece);
    reveal_with_fuel(stage, 4);
}

proof fn piece_reaches_stage(f: Files, i: int)
    requires
        0 <= i < 4,
    ensures
        piece(f, i).len() <= 1,
        stage(f, i).after(piece(f, i), piece(f, i).len() as int) == stage(f, i + 1),
{
    reveal(piece);
    let (from, to) = restore_at(f, i);
    let g = stage(f, i);
    after_restore(g, g.at(to) is Some, g.at(from) is Some, from, to);
}

/// The first `i` pieces lead to stage `i`.
proof fn pieces_reach_stages(f: Files)
    ensures
        f.after(piece(f, 0), piece(f, 0).len() as int) == stage(f, 1),
        ({
            let p = piece(f, 0) + piece(f, 1);
            f.after(p, p.len() as int) == stage(f, 2)
        }),
        ({
            let p = piece(f, 0) + piece(f, 1) + piece(f, 2);
            f.after(p, p.len() as int) == stage(f, 3)
        }),
        ({
            let p = piece(f, 0) + piece(f, 1) + piece(f, 2) + piece(f, 3);
            f.after(p, p.len() as int) == stage(f, 4)
        }),
{
    let a = piece(f, 0);
    let b = piece(f, 1);
    let c = piece(f, 2);
    let d = piece(f, 3);
    piece_reaches_stage(f, 0);
    piece_reaches_stage(f, 1);
    piece_reaches_stage(f, 2);
    piece_reaches_stage(f, 3);
    assert(stage(f, 0) == f);
    after_concat(f, a, b, b.len() as int);
    after_concat(f, a + b, c, c.len() as int);
    after_concat(f, a + b + c, d, d.len() as int);
}

/// Every state that the first steps of recovery pass through is one of the
/// stages.
proof fn bring_back_passes_stages(f: Files, j: int)
    requires
        f.marker is Some,
        0 <= j <= bring_back_plan(f.marker->0, f.seen()).len(),
    ensures
        exists|i: int|
            0 <= i <= 4 && f.after(bring_back_plan(f.marker->0, f.seen()), j) == #[trigger] stage(
                f,
                i,
            ),
        j == bring_back_plan(f.marker->0, f.seen()).len() ==> f.after(
            bring_back_plan(f.marker->0, f.seen()),
            j,
        ) == brought_back(f),
{
    let a = piece(f, 0);
    let b = piece(f, 1);
    let c = piece(f, 2);
    let d = piece(f, 3);
    let plan = a + b + c + d;
    bring_back_pieces(f);
    stages(f);
    pieces_reach_stages(f);
    piece_reaches_stage(f, 0);
    piece_reaches_stage(f, 1);
    piece_reaches_stage(f, 2);
    piece_reaches_stage(f, 3);
    if j == plan.len() {
        assert(f.after(plan, j) == stage(f, 4));
    } else if j == (a + b + c).len() {
        after_prefix(f, a + b + c, d, j);
        assert(f.after(plan, j) == stage(f, 3));
    } else if j == (a + b).len() {
        after_prefix(f, a + b + c, d, j);
        after_prefix(f, a + b, c, j);
        assert(f.after(plan, j) == stage(f, 2));
    } else if j == a.len() {
        after_prefix(f, a + b + c, d, j);
        after_prefix(f, a + b, c, j);
        after_prefix(f, a, b, j);
        assert(f.after(plan, j) == stage(f, 1));
    } else {
        assert(j == 0);
        assert(f.after(plan, 0) == stage(f, 0));
    }
}

/// What recovery makes of the files: what was missing is brought back, then
/// everything beside the store is removed.
pub proof fn recovery_outcome(f: Files)
    ensures
        f.marker is None ==> f.recovered() == f,
        f.marker is Some && can_recover(f.marker, f.seen()) ==> f.recovered()
            == brought_back(f).cleaned(),
        f.marker is Some && !can_recover(f.marker, f.seen()) ==> f.recovered() == brought_back(f),
{
    if f.marker is Some {
        let a = bring_back_plan(f.marker->0, f.seen());
        bring_back_passes_stages(f, a.len() as int);
        if can_recover(f.marker, f.seen()) {
            after_concat(f, a, cleanup_plan(), 7);
            cleanup_passes(brought_back(f), 7);
        } else {
            assert(a + Seq::<FileStep>::empty() =~= a);
        }
    }
}

/// The files after `k` steps of a swap.
spec fn mid_swap(old: Trio, new: Trio, k: int) -> Files {
    let at_first = before_swap(old, new);
    Files {
        data: if k <= 1 {
            Some(old.data)
        } else if k <= 5 {
            None
        } else {
            Some(new.data)
        },
        wal: if k <= 2 {
            Some(old.wal)
        } else if k <= 6 {
            None
        } else {
            Some(new.wal)
        },
        meta: if k <= 3 {
            old.meta
        } else if k <= 7 {
            None
        } else {
            new.meta
        },
        temp_data: if k <= 5 { Some(new.data) } else { None },
        temp_wal: if k <= 6 { Some(new.wal) } else { None },
        temp_meta: if k <= 7 { new.meta } else { None },
        backup_data: if 2 <= k <= 9 { Some(old.data) } else { None },
        backup_wal: if 3 <= k <= 10 { Some(old.wal) } else { None },
        backup_meta: if 4 <= k <= 11 { old.meta } else { None },
        marker: if k == 0 || k == 13 {
            None
        } else if k <= 4 {
            Some(Phase::Prepared.text())
        } else if k <= 8 {
            Some(Phase::OldMoved.text())
        } else {
            Some(Phase::Installed.text())
        },
    }
}

proof fn swap_passes(old: Trio, new: Trio, k: int)
    requires
        0 <= k <= 13,
    ensures
        before_swap(old, new).after(swap_plan(), k) == mid_swap(old, new, k),
    decreases k,
{
    if k > 0 {
        swap_passes(old, new, k - 1);
        assert(mid_swap(old, new, k - 1).step(swap_plan()[k - 1]) == mid_swap(old, new, k));
    }
}

proof fn phases_differ()
    ensures
        Phase::Prepared.text() != Phase::OldMoved.text(),
        Phase::Prepared.text() != Phase::Installed.text(),
        Phase::OldMoved.text() != Phase::Installed.text(),
        Phase::Prepared.text().len() == 8,
        Phase::OldMoved.text().len() == 9,
        Phase::Installed.text().len() == 9,
{
    reveal(Phase::text);
    assert(Phase::Prepared.text().len() != Phase::OldMoved.text().len());
    assert(Phase::Prepared.text().len() != Phase::Installed.text().len());
    assert(Phase::OldMoved.text()[0] != Phase::Installed.text()[0]);
}

/// A crash at any step of a swap loses nothing: recovery leaves the whole old
/// store up to the step that journals that it was set aside, and the whole new
/// one from then on.
pub proof fn interrupted_swap_is_recovered(old: Trio, new: Trio, k: int)
    requires
        0 <= k <= 13,
    ensures
        ({
            let f = before_swap(old, new).after(swap_plan(), k);
            &&& can_recover(f.marker, f.seen())
            &&& k == 0 ==> f.recovered() == before_swap(old, new)
            &&& 1 <= k <= 4 ==> holds_trio(f.recovered(), old, new)
            &&& 5 <= k <= 13 ==> holds_trio(f.recovered(), new, old)
        }),
{
    swap_passes(old, new, k);
    phases_differ();
    let f = mid_swap(old, new, k);
    recovery_outcome(f);
    if k == 1 || k == 2 || k == 3 || k == 4 {
        assert(holds_trio(f.recovered(), old, new));
    }
}

/// A crash while the marker is being written loses nothing either: with any part
/// of the new text in it, recovery leaves one whole store, the one that the step
/// before stood for.
pub proof fn torn_marker_is_recovered(old: Trio, new: Trio, k: int, n: int)
    requires
        k == 0 || k == 4 || k == 8,
        swap_plan()[k] is Mark,
        0 <= n < swap_plan()[k]->phase.text().len(),
    ensures
        ({
            let f = before_swap(old, new).after(swap_plan(), k).set(
                StoreFile::Marker,
                Some(swap_plan()[k]->phase.text().take(n)),
            );
            &&& can_recover(f.marker, f.seen())
            &&& k <= 4 ==> holds_trio(f.recovered(), old, new)
            &&& k == 8 ==> holds_trio(f.recovered(), new, old)
        }),
{
    swap_passes(old, new, k);
    phases_differ();
    let t = swap_plan()[k]->phase.text().take(n);
    assert(t.len() < 9);
    assert(Phase::OldMoved.text().len() == 9 && Phase::Installed.text().len() == 9);
    if k == 0 {
        assert(t.len() < Phase::Prepared.text().len());
    }
    let f = mid_swap(old, new, k).set(StoreFile::Marker, Some(t));
    recovery_outcome(f);
    if k == 4 {
        assert(!goes_forward(t, f.seen()));
    }
}

/// Whether the marker holds one of the three phases.
pub open spec fn marker_is_whole(f: Files) -> bool {
    f.marker == Some(Phase::Prepared.text()) || f.marker == Some(Phase::OldMoved.text())
        || f.marker == Some(Phase::Installed.text())
}

proof fn stage_brings_back_alike(f: Files, i: int)
    requires
        marker_is_whole(f),
        can_recover(f.marker, f.seen()),
        0 <= i <= 4,
    ensures
        stage(f, i).marker == f.marker,
        brought_back(stage(f, i)) == brought_back(f),
        can_recover(stage(f, i).marker, stage(f, i).seen()),
    decreases i,
{
    phases_differ();
    if i > 0 {
        stage_brings_back_alike(f, i - 1);
        let g = stage(f, i - 1);
        let h = stage(f, i);
        let (from, to) = restore_at(f, i - 1);
        assert(h == restored(g, from, to));
        assert(h.marker == g.marker);
        assert(goes_forward(g.marker->0, g.seen()) == (f.marker != Some(Phase::Prepared.text())));
        assert(goes_forward(h.marker->0, h.seen()) == (f.marker != Some(Phase::Prepared.text())));
        if i == 4 {
            stages(f);
            reveal_with_fuel(stage, 5);
        }
        assert(brought_back(h) == brought_back(g));
    }
}

proof fn stage_recovers_alike(f: Files, i: int)
    requires
        marker_is_whole(f),
        can_recover(f.marker, f.seen()),
        0 <= i <= 4,
    ensures
        stage(f, i).recovered() == f.recovered(),
{
    stage_brings_back_alike(f, i);
    recovery_outcome(f);
    recovery_outcome(stage(f, i));
}

/// The files after `j` steps of the cleanup.
spec fn mid_cleanup(f: Files, j: int) -> Files {
    Files {
        temp_data: if j >= 1 { None } else { f.temp_data },
        temp_wal: if j >= 2 { None } else { f.temp_wal },
        temp_meta: if j >= 3 { None } else { f.temp_meta },
        backup_data: if j >= 4 { None } else { f.backup_data },
        backup_wal: if j >= 5 { None } else { f.backup_wal },
        backup_meta: if j >= 6 { None } else { f.backup_meta },
        marker: if j >= 7 { None } else { f.marker },
        ..f
    }
}

proof fn cleanup_passes(f: Files, j: int)
    requires
        0 <= j <= 7,
    ensures
        f.after(cleanup_plan(), j) == mid_cleanup(f, j),
    decreases j,
{
    if j > 0 {
        cleanup_passes(f, j - 1);
        assert(mid_cleanup(f, j - 1).step(cleanup_plan()[j - 1]) == mid_cleanup(f, j));
    }
}

proof fn cleanup_recovers_alike(f: Files, j: int)
    requires
        f.marker is Some,
        f.data is Some,
        f.wal is Some,
        f.meta is None ==> f.temp_meta is None && f.backup_meta is None,
        0 <= j <= 7,
    ensures
        f.after(cleanup_plan(), j).recovered() == f.cleaned(),
{
    cleanup_passes(f, j);
    let g = mid_cleanup(f, j);
    recovery_outcome(g);
    if j < 7 {
        assert(brought_back(g) == g);
    }
}

proof fn brought_back_is_complete(f: Files)
    requires
        f.marker is Some,
        can_recover(f.marker, f.seen()),
    ensures
        brought_back(f).data is Some,
        brought_back(f).wal is Some,
        brought_back(f).meta is None ==> brought_back(f).temp_meta is None && brought_back(
            f,
        ).backup_meta is None,
{
}

/// Recovery may itself be interrupted, after any of its steps, and run again:
/// the outcome is the same.
pub proof fn interrupted_recovery_resumes(f: Files, j: int)
    requires
        marker_is_whole(f),
        can_recover(f.marker, f.seen()),
        0 <= j <= recovery_plan(f.marker, f.seen()).len(),
    ensures
        f.after(recovery_plan(f.marker, f.seen()), j).recovered() == f.recovered(),
{
    let a = bring_back_plan(f.marker->0, f.seen());
    let plan = recovery_plan(f.marker, f.seen());
    bring_back_passes_stages(f, a.len() as int);
    recovery_outcome(f);
    if j <= a.len() {
        after_prefix(f, a, cleanup_plan(), j);
        bring_back_passes_stages(f, j);
        let i = choose|i: int| 0 <= i <= 4 && f.after(a, j) == #[trigger] stage(f, i);
        stage_recovers_alike(f, i);
    } else {
        let g = brought_back(f);
        after_concat(f, a, cleanup_plan(), j - a.len());
        stage_brings_back_alike(f, 4);
        stages(f);
        brought_back_is_complete(f);
        cleanup_recovers_alike(g, j - a.len());
    }
}

} // verus!
