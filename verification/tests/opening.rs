use remem_server::engine::storage::init::{
    first_step, next_open_step, warns_of_leftover, IndexKind, OpenOutcome, OpenStep,
};
use remem_server::engine::storage::tmp_sweep::{name_has_extension, orphaned_tmp_files, DirEntry};

const KINDS: [IndexKind; 4] =
    [IndexKind::Vector, IndexKind::Graph, IndexKind::TimeSeries, IndexKind::Tag];

#[test]
fn every_index_is_ready_in_the_end() {
    let outcomes = [OpenOutcome::Loaded, OpenOutcome::Nothing, OpenOutcome::Corrupt];
    for kind in KINDS {
        for file in [false, true] {
            for manifest in [false, true] {
                for a in outcomes {
                    for b in outcomes {
                        let mut step = first_step(kind, true, file, manifest);
                        for outcome in [a, b, OpenOutcome::Nothing] {
                            step = next_open_step(kind, step, outcome, file);
                        }
                        assert_eq!(step, OpenStep::Ready);
                    }
                }
                assert_eq!(first_step(kind, false, file, manifest), OpenStep::Skip);
            }
        }
    }
}

#[test]
fn manifests_come_before_files() {
    assert_eq!(first_step(IndexKind::Graph, true, true, true), OpenStep::LoadSegments);
    assert_eq!(first_step(IndexKind::Graph, true, true, false), OpenStep::TakeOverFile);
    assert_eq!(first_step(IndexKind::Vector, true, false, false), OpenStep::CreateEmpty);
    assert_eq!(
        next_open_step(IndexKind::Vector, OpenStep::LoadSegments, OpenOutcome::Corrupt, true),
        OpenStep::TakeOverFile
    );
    assert!(warns_of_leftover(IndexKind::Graph, true, true));
    assert!(!warns_of_leftover(IndexKind::Graph, true, false));
    assert!(!warns_of_leftover(IndexKind::Tag, true, true));
}

#[test]
fn files_of_indexes_have_names() {
    let names: Vec<(&str, &str)> = KINDS.iter().map(|k| (k.file(), k.manifest())).collect();
    assert_eq!(
        names,
        vec![
            ("hnsw.idx", "hnsw.manifest"),
            ("graph.idx", "graph.manifest"),
            ("timeseries.idx", "timeseries.manifest"),
            ("tags.idx", "tags.manifest"),
        ]
    );
}

fn entry(name: &str, is_file: bool) -> DirEntry {
    DirEntry { name: name.to_string(), is_file }
}

#[test]
fn removes_orphaned_manifest_tmp_file() {
    let removed = orphaned_tmp_files(&vec![entry("hnsw.manifest.tmp", true)]);
    assert_eq!(removed, vec!["hnsw.manifest.tmp"]);
}

#[test]
fn removes_orphaned_seg_tmp_file() {
    let removed = orphaned_tmp_files(&vec![entry("nodes_0_100.seg.tmp", true)]);
    assert_eq!(removed, vec!["nodes_0_100.seg.tmp"]);
}

#[test]
fn removes_orphaned_hnsw_deleted_nodes_tmp_file() {
    let removed = orphaned_tmp_files(&vec![entry("deleted_nodes.bin.tmp", true)]);
    assert_eq!(removed, vec!["deleted_nodes.bin.tmp"]);
}

#[test]
fn removes_orphaned_sstable_tmp_file() {
    let removed = orphaned_tmp_files(&vec![entry("000123.sst.tmp", true)]);
    assert_eq!(removed, vec!["000123.sst.tmp"]);
}

#[test]
fn leaves_sealed_files_alone() {
    let entries = vec![entry("hnsw.manifest", true), entry("000123.sst", true)];
    assert!(orphaned_tmp_files(&entries).is_empty());
}

/// A directory that is missing has no entries.
#[test]
fn missing_directory_is_not_an_error() {
    assert_eq!(orphaned_tmp_files(&vec![]).len(), 0);
}

#[test]
fn ignores_subdirectories_named_like_tmp_files() {
    assert!(orphaned_tmp_files(&vec![entry("nested.tmp", false)]).is_empty());
}

#[test]
fn test_new_sweeps_orphaned_tmp_files_left_by_a_crash() {
    let index_dir = vec![
        entry("hnsw.manifest.tmp", true),
        entry("nodes_0_100.seg.tmp", true),
        entry("deleted_nodes.bin.tmp", true),
    ];
    let sstables_dir = vec![entry("000123.sst.tmp", true)];
    assert_eq!(
        orphaned_tmp_files(&index_dir),
        vec!["hnsw.manifest.tmp", "nodes_0_100.seg.tmp", "deleted_nodes.bin.tmp"]
    );
    assert_eq!(orphaned_tmp_files(&sstables_dir), vec!["000123.sst.tmp"]);
}

#[test]
fn extensions_follow_a_stem() {
    let entries = vec![entry(".tmp", true), entry("tmp", true), entry("a.tmp", true)];
    assert_eq!(orphaned_tmp_files(&entries), vec!["a.tmp"]);
    assert!(name_has_extension("a.sst", "sst"));
    assert!(!name_has_extension("a.sst.tmp", "sst"));
}
