use mhws_tex_decompressor::chunk::ChunkName;
use mhws_tex_decompressor::files::FileOp;
use mhws_tex_decompressor::metadata::{
    check_tool_generated_file, mark_entry, MarkError, MarkLookup, PakMetadata, MARK_HASH,
};
use mhws_tex_decompressor::path::FilePath;
use mhws_tex_decompressor::restore::{
    has_higher_patches, patch_files_to_remove, plan_patch_removal, restore_action, trace_kind,
    PatchFile, PatchRemoval, RestoreAction, RestoreScan, ToolEntry, ToolFile, TraceKind,
};

const SUB: &str = "re_chunk_000.pak.sub_000.pak";

fn name(s: &str) -> ChunkName {
    ChunkName::try_from_str(s).unwrap()
}

fn path(name: &str) -> FilePath {
    FilePath { dir: "g".to_string(), name: name.to_string() }
}

fn patch_name(id: u32) -> String {
    name(SUB).set_sub_patch(id).to_string()
}

fn patch(id: u32) -> PatchFile {
    PatchFile { path: path(&patch_name(id)), name: name(&patch_name(id)) }
}

fn names(ids: &[u32]) -> Vec<ChunkName> {
    ids.iter().map(|id| name(&patch_name(*id))).collect()
}

#[test]
fn marks_read_back_as_written() {
    for full in [false, true] {
        let m = PakMetadata::new(full);
        assert_eq!(m.is_full_package(), full);
        assert_eq!(PakMetadata::from_bytes(&m.to_bytes()), Some(m));
    }
    assert_eq!(PakMetadata::new(true).to_bytes(), b"MHWS_TEX_DECOMPRESSOR\x01\x01".to_vec());
    let mut bytes = PakMetadata::new(true).to_bytes();
    bytes[3] = b'X';
    assert_eq!(PakMetadata::from_bytes(&bytes), None);
    let mut bytes = PakMetadata::new(true).to_bytes();
    *bytes.last_mut().unwrap() = 2;
    assert_eq!(PakMetadata::from_bytes(&bytes), None);
    assert_eq!(PakMetadata::from_bytes(&vec![]), None);
    bytes.push(0);
    assert_eq!(PakMetadata::from_bytes(&bytes), None);
}

#[test]
fn the_mark_is_the_first_entry_with_its_hash() {
    assert_eq!(MARK_HASH, 0x4d48_5753_5445_5844);
    assert_eq!(mark_entry(&vec![]), None);
    assert_eq!(mark_entry(&vec![1, 2, 3]), None);
    assert_eq!(mark_entry(&vec![MARK_HASH]), Some(0));
    assert_eq!(mark_entry(&vec![1, MARK_HASH, 2, MARK_HASH]), Some(1));
}

#[test]
fn only_reading_an_archive_can_fail() {
    let m = PakMetadata::new(false);
    assert_eq!(check_tool_generated_file(MarkLookup::Unopened), Ok(None));
    assert_eq!(check_tool_generated_file(MarkLookup::NotAnArchive), Ok(None));
    assert_eq!(check_tool_generated_file(MarkLookup::Failed), Err(MarkError));
    assert_eq!(check_tool_generated_file(MarkLookup::Read(None)), Ok(None));
    assert_eq!(check_tool_generated_file(MarkLookup::Read(Some(m))), Ok(Some(m)));
}

#[test]
fn traces_by_name() {
    assert_eq!(trace_kind(false, SUB), TraceKind::Other);
    assert_eq!(trace_kind(true, SUB), TraceKind::Archive);
    assert_eq!(trace_kind(true, "re_dlc_a.pak"), TraceKind::Archive);
    assert_eq!(trace_kind(true, "re_chunk_odd.name.pak"), TraceKind::Archive);
    assert_eq!(trace_kind(true, "mod.pak"), TraceKind::Other);
    assert_eq!(trace_kind(true, "anything.pak.backup"), TraceKind::Backup);
    assert_eq!(trace_kind(true, "re_chunk_000.pak.sub_000.pak.temp"), TraceKind::Other);
}

#[test]
fn a_scan_collects_traces() {
    let full = PakMetadata::new(true);
    let patch = PakMetadata::new(false);
    let entry = |is_file: bool, n: &str, mark| ToolEntry { is_file, path: path(n), mark };
    let mut scan = RestoreScan::new();
    assert!(scan.is_empty());
    scan.scan_tool_files_in_directory(&vec![
        entry(true, SUB, Ok(Some(full))),
        entry(true, "re_chunk_000.pak.sub_000.pak.backup", Ok(None)),
        entry(true, "re_chunk_000.pak", Ok(None)),
        entry(true, "re_chunk_001.pak", Err(MarkError)),
        entry(true, "mod.pak", Ok(Some(patch))),
        entry(false, "re_chunk_002.pak", Ok(Some(patch))),
        entry(true, "re_chunk_odd.name.pak", Ok(Some(patch))),
    ]);
    assert_eq!(
        scan.tool_generated_files,
        vec![
            ToolFile { path: path(SUB), metadata: full },
            ToolFile { path: path("re_chunk_odd.name.pak"), metadata: patch },
        ]
    );
    assert_eq!(scan.backup_files, vec![path("re_chunk_000.pak.sub_000.pak.backup")]);
    assert_eq!(
        scan.all_chunks,
        vec![name(SUB), name("re_chunk_000.pak"), name("re_chunk_001.pak")]
    );
    assert!(!scan.is_empty());
}

#[test]
fn actions_by_kind_of_file() {
    let full = ToolFile { path: path(SUB), metadata: PakMetadata::new(true) };
    let backup = path("re_chunk_000.pak.sub_000.pak.backup");
    assert_eq!(
        restore_action(&full, true),
        RestoreAction::RestoreBackup(vec![
            FileOp::Remove(path(SUB)),
            FileOp::Rename(backup.clone(), path(SUB)),
        ])
    );
    assert_eq!(restore_action(&full, false), RestoreAction::BackupMissing(backup));
    let p = ToolFile { path: path(&patch_name(2)), metadata: PakMetadata::new(false) };
    assert_eq!(restore_action(&p, true), RestoreAction::RemovePatch(name(&patch_name(2))));
    let odd = ToolFile {
        path: path("re_chunk_odd.name.pak"),
        metadata: PakMetadata::new(false),
    };
    assert_eq!(restore_action(&odd, true), RestoreAction::Keep);
    assert_eq!(patch_files_to_remove(&vec![full, p, odd]), vec![patch(2)]);
}

#[test]
fn patches_of_a_run_are_all_deleted() {
    let files = vec![patch(1), patch(2), patch(3)];
    assert_eq!(
        plan_patch_removal(&files, &names(&[1, 2, 3])),
        vec![
            PatchRemoval::Delete(path(&patch_name(3))),
            PatchRemoval::Delete(path(&patch_name(2))),
            PatchRemoval::Delete(path(&patch_name(1))),
        ]
    );
}

#[test]
fn a_patch_below_another_is_emptied() {
    let files = vec![patch(1), patch(3)];
    assert_eq!(
        plan_patch_removal(&files, &names(&[1, 2, 3])),
        vec![
            PatchRemoval::Delete(path(&patch_name(3))),
            PatchRemoval::CreateEmpty(path(&patch_name(1))),
        ]
    );
    let backwards = vec![patch(3), patch(1)];
    assert_eq!(
        plan_patch_removal(&backwards, &names(&[1, 3])),
        vec![
            PatchRemoval::CreateEmpty(path(&patch_name(1))),
            PatchRemoval::Delete(path(&patch_name(3))),
        ]
    );
}

#[test]
fn a_base_patch_below_another_is_emptied() {
    let first = "re_chunk_000.pak.patch_001.pak";
    let second = "re_chunk_000.pak.patch_002.pak";
    let files = vec![PatchFile { path: path(first), name: name(first) }];
    assert_eq!(
        plan_patch_removal(&files, &vec![name(first), name(second)]),
        vec![PatchRemoval::CreateEmpty(path(first))]
    );
    assert_eq!(
        plan_patch_removal(&files, &vec![name(first)]),
        vec![PatchRemoval::Delete(path(first))]
    );
}

#[test]
fn a_sub_chunk_without_patch_number_ends_the_plan() {
    let odd = PatchFile { path: path(SUB), name: name(SUB) };
    let files = vec![patch(1), odd, patch(2)];
    assert_eq!(
        plan_patch_removal(&files, &names(&[1, 2])),
        vec![PatchRemoval::Delete(path(&patch_name(2)))]
    );
    let alone = vec![PatchFile { path: path(SUB), name: name(SUB) }];
    assert_eq!(
        plan_patch_removal(&alone, &vec![name(SUB)]),
        vec![PatchRemoval::Delete(path(SUB))]
    );
}

#[test]
fn a_base_without_patch_number_comes_before_its_patches() {
    let base = "re_chunk_000.pak";
    let first = "re_chunk_000.pak.patch_001.pak";
    let files = vec![patch(1), PatchFile { path: path(base), name: name(base) }];
    assert_eq!(
        plan_patch_removal(&files, &vec![name(base), name(first), name(&patch_name(1))]),
        vec![
            PatchRemoval::CreateEmpty(path(base)),
            PatchRemoval::Delete(path(&patch_name(1))),
        ]
    );
    let files = vec![PatchFile { path: path(base), name: name(base) }];
    assert_eq!(
        plan_patch_removal(&files, &vec![name(base), name(SUB), name(&patch_name(1))]),
        vec![PatchRemoval::Delete(path(base))]
    );
    let files = vec![
        PatchFile { path: path(base), name: name(base) },
        PatchFile { path: path(first), name: name(first) },
    ];
    assert_eq!(
        plan_patch_removal(&files, &vec![name(base), name(first)]),
        vec![PatchRemoval::Delete(path(first)), PatchRemoval::Delete(path(base))]
    );
}

#[test]
fn higher_patches_are_those_of_the_sequence() {
    let there = vec![
        name("re_chunk_000.pak.sub_000.pak.patch_005.pak"),
        name("re_chunk_000.pak.sub_001.pak.patch_009.pak"),
        name("re_chunk_000.pak.patch_009.pak"),
    ];
    assert_eq!(has_higher_patches(&there, &name(&patch_name(4))), Some(true));
    assert_eq!(has_higher_patches(&there, &name(&patch_name(5))), Some(false));
    assert_eq!(has_higher_patches(&there, &name(SUB)), None);
    let base = |s: &str| has_higher_patches(&there, &name(s));
    assert_eq!(base("re_chunk_000.pak.patch_001.pak"), Some(true));
    assert_eq!(base("re_chunk_000.pak.patch_009.pak"), Some(false));
    assert_eq!(base("re_chunk_000.pak"), Some(true));
    assert_eq!(base("re_chunk_001.pak"), Some(false));
}

#[test]
fn a_removal_leaves_no_gap() {
    let ids = [1, 2, 3, 4, 5, 6];
    for tool in [vec![2, 4, 6], vec![6, 5, 1], vec![1, 2, 3, 4, 5, 6], vec![3, 6, 5]] {
        let files: Vec<PatchFile> = tool.iter().map(|id| patch(*id)).collect();
        let steps = plan_patch_removal(&files, &names(&ids));
        assert_eq!(steps.len(), files.len());
        let left: Vec<u32> = ids
            .iter()
            .copied()
            .filter(|id| !steps.contains(&PatchRemoval::Delete(path(&patch_name(*id)))))
            .collect();
        assert_eq!(left, (1..=left.len() as u32).collect::<Vec<u32>>());
        assert!(ids.iter().all(|id| tool.contains(id) || left.contains(id)));
    }
}

#[test]
fn a_removal_leaves_no_gap_in_a_base() {
    let base = |id: u32| format!("re_chunk_000.pak.patch_{id:03}.pak");
    let ids = [1, 2, 3, 4];
    let there: Vec<ChunkName> = ids.iter().map(|id| name(&base(*id))).collect();
    for tool in [vec![1, 3], vec![4, 2], vec![1, 2, 3, 4], vec![2, 4, 3]] {
        let files: Vec<PatchFile> = tool
            .iter()
            .map(|id| PatchFile { path: path(&base(*id)), name: name(&base(*id)) })
            .collect();
        let steps = plan_patch_removal(&files, &there);
        assert_eq!(steps.len(), files.len());
        let left: Vec<u32> = ids
            .iter()
            .copied()
            .filter(|id| !steps.contains(&PatchRemoval::Delete(path(&base(*id)))))
            .collect();
        assert_eq!(left, (1..=left.len() as u32).collect::<Vec<u32>>());
    }
}

#[test]
fn what_a_run_writes_is_found_again() {
    let patched = patch_name(1);
    assert_eq!(trace_kind(true, &patched), TraceKind::Archive);
    let backup = path(SUB).with_extension("pak.backup");
    assert_eq!(trace_kind(true, &backup.name), TraceKind::Backup);
    let mut scan = RestoreScan::new();
    scan.scan_tool_files_in_directory(&vec![ToolEntry {
        is_file: true,
        path: path(&patched),
        mark: Ok(Some(PakMetadata::new(false))),
    }]);
    let patches = patch_files_to_remove(&scan.tool_generated_files);
    assert_eq!(patches, vec![patch(1)]);
    assert_eq!(
        plan_patch_removal(&patches, &scan.all_chunks),
        vec![PatchRemoval::Delete(path(&patched))]
    );
}
