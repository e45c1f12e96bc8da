use quiver_core::distance::Metric;
use quiver_core::error::QuiverError;
use quiver_core::storage::compaction::{
    recover_compaction, sidecar_path, swap_steps, CompactionPaths, FileStep, Phase, SeenFiles,
    StoreFile,
};
use quiver_core::storage::vecstore::VectorStore;
use std::collections::HashMap;

type Files = HashMap<String, Vec<u8>>;

fn name(file: StoreFile) -> String {
    format!("{file:?}")
}

fn has(files: &Files, file: StoreFile) -> bool {
    files.contains_key(&name(file))
}

fn run(files: &mut Files, step: FileStep) {
    match step {
        FileStep::Move { from, to } => {
            let content = files.remove(&name(from)).unwrap();
            files.insert(name(to), content);
        }
        FileStep::MoveIfPresent { from, to } => {
            if let Some(content) = files.remove(&name(from)) {
                files.insert(name(to), content);
            }
        }
        FileStep::Remove { file } => {
            files.remove(&name(file));
        }
        FileStep::Mark { phase } => {
            files.insert(name(StoreFile::Marker), phase.bytes());
        }
    }
}

fn seen(files: &Files) -> SeenFiles {
    SeenFiles {
        data: has(files, StoreFile::Data),
        wal: has(files, StoreFile::Wal),
        meta: has(files, StoreFile::Meta),
        temp_data: has(files, StoreFile::TempData),
        temp_wal: has(files, StoreFile::TempWal),
        temp_meta: has(files, StoreFile::TempMeta),
        backup_data: has(files, StoreFile::BackupData),
        backup_wal: has(files, StoreFile::BackupWal),
        backup_meta: has(files, StoreFile::BackupMeta),
    }
}

fn plan(files: &Files) -> (Vec<FileStep>, Result<(), QuiverError>) {
    let marker = files.get(&name(StoreFile::Marker)).map(|m| m.as_slice());
    recover_compaction(marker, seen(files))
}

fn recover(files: &mut Files) {
    let (steps, result) = plan(files);
    for step in steps {
        run(files, step);
    }
    result.unwrap();
}

fn before() -> Files {
    let mut files = Files::new();
    files.insert(name(StoreFile::Data), b"old data".to_vec());
    files.insert(name(StoreFile::Wal), b"old wal".to_vec());
    files.insert(name(StoreFile::Meta), b"old meta".to_vec());
    files.insert(name(StoreFile::TempData), b"new data".to_vec());
    files.insert(name(StoreFile::TempWal), b"new wal".to_vec());
    files.insert(name(StoreFile::TempMeta), b"new meta".to_vec());
    files
}

fn expected(age: &str) -> Files {
    let mut files = Files::new();
    files.insert(name(StoreFile::Data), format!("{age} data").into_bytes());
    files.insert(name(StoreFile::Wal), format!("{age} wal").into_bytes());
    files.insert(name(StoreFile::Meta), format!("{age} meta").into_bytes());
    files
}

#[test]
fn test_kill_mid_compaction_recovers_without_data_loss() {
    let bits = |values: [f32; 2]| values.map(f32::to_bits);
    let mut store = VectorStore::create(2, Metric::L2);
    store.insert(&bits([1.0, 1.0])).unwrap();
    let deleted_id = store.insert(&bits([2.0, 2.0])).unwrap();
    store.insert(&bits([3.0, 3.0])).unwrap();
    store.delete(deleted_id).unwrap();
    let log = store.flush_wal();

    let steps = swap_steps();
    for k in 0..=steps.len() {
        let mut files = Files::new();
        files.insert(name(StoreFile::Data), store.data_bytes());
        files.insert(name(StoreFile::Wal), log.clone());
        files.insert(name(StoreFile::TempData), store.compacted().data_bytes());
        files.insert(name(StoreFile::TempWal), Vec::new());
        for step in &steps[..k] {
            run(&mut files, *step);
        }
        recover(&mut files);
        let data = &files[&name(StoreFile::Data)];
        let wal = &files[&name(StoreFile::Wal)];
        let reopened = VectorStore::open(data, wal, None).unwrap().store;
        if k <= 4 {
            // The old pair is still in place, or is put back.
            assert_eq!(reopened.len(), 3);
            assert!(reopened.is_deleted(deleted_id));
            assert_eq!(reopened.live_ids(), vec![1, 3]);
        } else {
            // Both old files are backups, and the replacement is installed.
            assert_eq!(reopened.len(), 2);
            assert_eq!(reopened.vector_id(0).unwrap(), 1);
            assert_eq!(reopened.vector_id(1).unwrap(), 3);
            assert_eq!(reopened.get_vector(0).unwrap(), &bits([1.0, 1.0]));
            assert_eq!(reopened.get_vector(1).unwrap(), &bits([3.0, 3.0]));
            assert_eq!(wal.len(), 0);
        }
    }
}

#[test]
fn a_swap_cut_anywhere_leaves_one_whole_store() {
    let steps = swap_steps();
    assert_eq!(steps.len(), 13);
    for k in 1..=steps.len() {
        let mut files = before();
        for step in &steps[..k] {
            run(&mut files, *step);
        }
        recover(&mut files);
        assert_eq!(files, expected(if k <= 4 { "old" } else { "new" }), "after {k} steps");
    }
}

#[test]
fn an_untouched_store_is_left_alone() {
    let mut files = before();
    recover(&mut files);
    assert_eq!(files, before());
}

#[test]
fn recovery_can_itself_be_interrupted() {
    let steps = swap_steps();
    for k in 1..steps.len() {
        let mut files = before();
        for step in &steps[..k] {
            run(&mut files, *step);
        }
        let (plan, _) = plan(&files);
        for j in 0..=plan.len() {
            let mut again = files.clone();
            for step in &plan[..j] {
                run(&mut again, *step);
            }
            recover(&mut again);
            assert_eq!(again, expected(if k <= 4 { "old" } else { "new" }));
        }
    }
}

#[test]
fn a_torn_marker_leaves_one_whole_store() {
    let steps = swap_steps();
    for k in [0usize, 4, 8] {
        let text = match steps[k] {
            FileStep::Mark { phase } => phase.bytes(),
            other => panic!("unexpected {other:?}"),
        };
        for n in 0..text.len() {
            let mut files = before();
            for step in &steps[..k] {
                run(&mut files, *step);
            }
            files.insert(name(StoreFile::Marker), text[..n].to_vec());
            recover(&mut files);
            assert_eq!(files, expected(if k <= 4 { "old" } else { "new" }));
        }
    }
}

#[test]
fn a_store_that_cannot_be_brought_back_is_an_error() {
    let mut files = Files::new();
    files.insert(name(StoreFile::Marker), Phase::Prepared.bytes());
    files.insert(name(StoreFile::BackupData), b"old data".to_vec());
    let (steps, result) = plan(&files);
    assert_eq!(
        steps,
        vec![FileStep::Move {
            from: StoreFile::BackupData,
            to: StoreFile::Data
        }]
    );
    match result {
        Err(QuiverError::InvalidFormat(text)) => {
            assert_eq!(text, "Unable to recover interrupted compaction")
        }
        other => panic!("unexpected {other:?}"),
    }
}

#[test]
fn phases_are_journaled_as_words() {
    assert_eq!(Phase::Prepared.bytes(), b"prepared");
    assert_eq!(Phase::OldMoved.bytes(), b"old_moved");
    assert_eq!(Phase::Installed.bytes(), b"installed");
}

#[test]
fn sidecars_stand_beside_the_store() {
    assert_eq!(sidecar_path("a.qvdb", ".meta"), "a.qvdb.meta");
    let paths = CompactionPaths::new("a.qvdb", "a.wal");
    assert_eq!(paths.temp_data, "a.qvdb.compact.tmp");
    assert_eq!(paths.temp_wal, "a.wal.compact.tmp");
    assert_eq!(paths.temp_meta, "a.qvdb.compact.tmp.meta");
    assert_eq!(paths.backup_data, "a.qvdb.compact.bak");
    assert_eq!(paths.backup_wal, "a.wal.compact.bak");
    assert_eq!(paths.backup_meta, "a.qvdb.meta.compact.bak");
    assert_eq!(paths.marker, "a.qvdb.compact.marker");
}
