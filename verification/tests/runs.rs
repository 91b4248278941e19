use mhws_tex_decompressor::chunk::ChunkName;
use mhws_tex_decompressor::error::{require_game_dir, require_input_file, Error};
use mhws_tex_decompressor::files::{backup_path, replace_original, restore_backup, FileOp};
use mhws_tex_decompressor::mode::Mode;
use mhws_tex_decompressor::output::{
    finish_job, is_true_selection, manual_job, max_sub_patch, plan_jobs,
};
use mhws_tex_decompressor::path::FilePath;
use mhws_tex_decompressor::selection::{
    default_marks, pak_verdict, picked, scan_pak_files_in_dir, sort_by_name, sub_chunks,
    ChunkSelection, DirEntry, FoundArchives, PakVerdict,
};
use std::collections::BTreeMap;

fn name(s: &str) -> ChunkName {
    ChunkName::try_from_str(s).unwrap()
}

fn path(dir: &str, name: &str) -> FilePath {
    FilePath { dir: dir.to_string(), name: name.to_string() }
}

fn selection(dir: &str, file: &str, size: u64) -> ChunkSelection {
    ChunkSelection { chunk_name: name(file), file_size: size, full_path: path(dir, file) }
}

fn entry(dir: &str, file: &str, is_file: bool, size: u64) -> DirEntry {
    DirEntry { is_file, path: path(dir, file), size }
}

#[test]
fn modes_by_index() {
    assert_eq!(Mode::from_index(0), Ok(Mode::Automatic));
    assert_eq!(Mode::from_index(1), Ok(Mode::Manual));
    assert_eq!(Mode::from_index(2), Ok(Mode::Restore));
    assert_eq!(Mode::from_index(3), Err(Error::InvalidModeIndex(3)));
}

#[test]
fn error_messages() {
    assert_eq!(Error::InvalidModeIndex(17).message(), "Invalid mode index: 17");
    assert_eq!(Error::GameDirectoryMissing.message(), "game directory not exists.");
    assert_eq!(Error::InputFileMissing.message(), "input file not exists.");
    assert_eq!(Error::NoPakFiles.message(), "No available pak files found.");
    assert_eq!(Error::NoChunksSelected.message(), "No chunks selected.");
}

#[test]
fn missing_places_end_a_run() {
    assert_eq!(require_game_dir(true), Ok(()));
    assert_eq!(require_game_dir(false), Err(Error::GameDirectoryMissing));
    assert_eq!(require_input_file(true), Ok(()));
    assert_eq!(require_input_file(false), Err(Error::InputFileMissing));
}

#[test]
fn entries_are_judged() {
    assert_eq!(pak_verdict(false, "re_chunk_000.pak"), PakVerdict::Ignored);
    assert_eq!(pak_verdict(true, "readme.txt"), PakVerdict::Ignored);
    assert!(matches!(pak_verdict(true, "mod.pak"), PakVerdict::Invalid(_)));
    assert_eq!(
        pak_verdict(true, "re_chunk_000.pak"),
        PakVerdict::Chunk(name("re_chunk_000.pak"))
    );
}

#[test]
fn a_scan_appends_archives_in_order() {
    let entries = vec![
        entry("g", "re_chunk_001.pak", true, 5),
        entry("g", "dlc", false, 0),
        entry("g", "mod.pak", true, 6),
        entry("g", "re_chunk_000.pak.sub_000.pak.backup", true, 7),
        entry("g", "re_chunk_000.pak.sub_000.pak", true, 8),
    ];
    let mut all = vec![selection("x", "re_chunk_009.pak", 1)];
    scan_pak_files_in_dir(&entries, &mut all);
    assert_eq!(
        all,
        vec![
            selection("x", "re_chunk_009.pak", 1),
            selection("g", "re_chunk_001.pak", 5),
            selection("g", "re_chunk_000.pak.sub_000.pak", 8),
        ]
    );
}

#[test]
fn locations_are_asked_for_only_with_a_choice() {
    let main = vec![entry("g", "re_chunk_000.pak", true, 1)];
    let dlc = vec![entry("g/dlc", "re_dlc_a.pak", true, 1)];
    let none: Vec<DirEntry> = vec![];
    let both = FoundArchives::scan_all_pak_files(&main, &Some(dlc));
    assert_eq!(both.fixed_locations(), None);
    let only_main = FoundArchives::scan_all_pak_files(&main, &None);
    assert_eq!(only_main.fixed_locations(), Some(vec![0]));
    let dlc = vec![entry("g/dlc", "re_dlc_a.pak", true, 1)];
    let only_dlc = FoundArchives::scan_all_pak_files(&none, &Some(dlc));
    assert_eq!(only_dlc.fixed_locations(), Some(vec![1]));
    let nothing = FoundArchives::scan_all_pak_files(&none, &None);
    assert_eq!(nothing.fixed_locations(), Some(vec![]));
    assert_eq!(nothing.merge(&vec![]), vec![]);
}

#[test]
fn merged_places_are_sorted_stably() {
    let found = FoundArchives {
        main: vec![
            selection("g", "re_chunk_002.pak", 1),
            selection("g", "re_chunk_000.pak.sub_001.pak", 2),
        ],
        dlc: vec![
            selection("d", "re_dlc_a.pak", 3),
            selection("d", "re_chunk_002.pak", 4),
        ],
    };
    assert_eq!(
        found.merge(&vec![0, 1]),
        vec![
            selection("g", "re_chunk_000.pak.sub_001.pak", 2),
            selection("g", "re_chunk_002.pak", 1),
            selection("d", "re_chunk_002.pak", 4),
            selection("d", "re_dlc_a.pak", 3),
        ]
    );
    assert_eq!(
        found.merge(&vec![1, 7]),
        vec![selection("d", "re_chunk_002.pak", 4), selection("d", "re_dlc_a.pak", 3)]
    );
    assert_eq!(found.merge(&vec![1, 0])[1].full_path.dir, "d");
}

#[test]
fn sorting_agrees_with_std() {
    let mut list: Vec<ChunkSelection> = vec![];
    for i in 0..40u64 {
        let file = format!("re_chunk_{:03}.pak.sub_{:03}.pak", (i * 7) % 5, (i * 3) % 4);
        list.push(selection("g", &file, i));
    }
    let own = sort_by_name(&list);
    let mut by_std = list;
    by_std.sort_by_key(|c| match c.chunk_name.major_id() {
        mhws_tex_decompressor::chunk::MajorId::Chunk(id) => (*id, c.chunk_name.sub_id()),
        _ => unreachable!(),
    });
    assert_eq!(own, by_std);
}

#[test]
fn only_sub_chunks_are_offered() {
    let all = vec![
        selection("g", "re_chunk_000.pak", 9),
        selection("g", "re_chunk_000.pak.sub_000.pak", 1048575),
        selection("g", "re_chunk_000.pak.sub_001.pak", 1048576),
    ];
    let subs = sub_chunks(&all).unwrap();
    assert_eq!(subs, all[1..].to_vec());
    assert_eq!(default_marks(&subs), vec![false, true]);
    assert_eq!(sub_chunks(&vec![selection("g", "re_chunk_000.pak", 9)]), Err(Error::NoPakFiles));
    assert_eq!(sub_chunks(&vec![]), Err(Error::NoPakFiles));
}

#[test]
fn picks_are_taken_in_their_order() {
    let subs = vec![
        selection("g", "re_chunk_000.pak.sub_000.pak", 1),
        selection("g", "re_chunk_000.pak.sub_001.pak", 2),
    ];
    assert_eq!(
        picked(&subs, &Some(vec![1, 0])).unwrap(),
        vec![subs[1].clone(), subs[0].clone()]
    );
    assert_eq!(picked(&subs, &Some(vec![])).unwrap(), vec![]);
    assert_eq!(picked(&subs, &None), Err(Error::NoChunksSelected));
}

#[test]
fn labels_show_name_and_size() {
    let c = selection("g", "re_chunk_000.pak.sub_000.pak", 1_500_000);
    assert_eq!(c.label("big"), "re_chunk_000.pak.sub_000.pak (big)");
    assert_eq!(c.to_string(), "re_chunk_000.pak.sub_000.pak (1.43 MiB)");
    assert_eq!(mhws_tex_decompressor::util::human_bytes(15), "15 B");
    assert_eq!(mhws_tex_decompressor::util::human_bytes(1_500), "1.46 KiB");
}

#[test]
fn patches_follow_those_that_are_there() {
    let all = vec![
        selection("g", "re_chunk_000.pak.sub_000.pak", 1),
        selection("g", "re_chunk_000.pak.sub_000.pak.patch_003.pak", 1),
        selection("g", "re_chunk_000.pak.sub_001.pak", 1),
        selection("d", "re_dlc_a.pak.sub_000.pak", 1),
    ];
    let jobs = plan_jobs(&all, &all, false);
    let outputs: Vec<(String, String)> =
        jobs.iter().map(|j| (j.output.dir.clone(), j.output.name.clone())).collect();
    let expected: Vec<(String, String)> = [
        ("g", "re_chunk_000.pak.sub_000.pak.patch_004.pak"),
        ("g", "re_chunk_000.pak.sub_000.pak.patch_005.pak"),
        ("g", "re_chunk_000.pak.sub_001.pak.patch_001.pak"),
        ("d", "re_dlc_a.pak.sub_000.pak.patch_001.pak"),
    ]
    .iter()
    .map(|(d, n)| (d.to_string(), n.to_string()))
    .collect();
    assert_eq!(outputs, expected);
    for (job, c) in jobs.iter().zip(&all) {
        assert_eq!(job.input, c.full_path);
        assert!(!job.use_full_package_mode);
        assert!(job.use_feature_clone);
        assert_eq!(finish_job(job, false, true), vec![]);
        assert!(all.iter().all(|a| a.full_path.name != job.output.name));
    }
}

#[test]
fn a_full_series_ends_the_plan() {
    let all = vec![
        selection("g", "re_chunk_000.pak.sub_001.pak", 1),
        selection("g", "re_chunk_000.pak.sub_000.pak.patch_4294967295.pak", 1),
        selection("g", "re_chunk_000.pak.sub_002.pak", 1),
    ];
    assert_eq!(plan_jobs(&all, &all, false).len(), 1);
    assert_eq!(plan_jobs(&all, &all, true).len(), 3);
}

#[test]
fn the_highest_patch_is_that_of_the_series() {
    let names = vec![
        name("re_chunk_000.pak.sub_000.pak.patch_002.pak"),
        name("re_chunk_000.pak.sub_000.pak.patch_007.pak"),
        name("re_chunk_000.pak.sub_001.pak.patch_009.pak"),
        name("re_chunk_001.pak.sub_000.pak.patch_011.pak"),
        name("re_chunk_000.pak.patch_001.pak.sub_000.pak.patch_013.pak"),
    ];
    assert_eq!(max_sub_patch(&names, &name("re_chunk_000.pak.sub_000.pak")), 7);
    assert_eq!(max_sub_patch(&names, &name("re_chunk_000.pak.sub_005.pak")), 0);
}

#[test]
fn replacements_are_written_beside_the_original() {
    let all = vec![selection("g", "re_chunk_000.pak.sub_000.pak", 1)];
    let jobs = plan_jobs(&all, &all, true);
    assert_eq!(jobs[0].output, path("g", "re_chunk_000.pak.sub_000.pak.temp"));
    assert!(jobs[0].use_full_package_mode && jobs[0].use_feature_clone);
    let backup = path("g", "re_chunk_000.pak.sub_000.pak.backup");
    assert_eq!(backup_path(&all[0].full_path), backup);
    assert_eq!(
        finish_job(&jobs[0], true, true),
        vec![
            FileOp::Remove(backup.clone()),
            FileOp::Rename(all[0].full_path.clone(), backup.clone()),
            FileOp::Rename(jobs[0].output.clone(), all[0].full_path.clone()),
        ]
    );
    assert_eq!(finish_job(&jobs[0], true, false).len(), 2);
}

fn apply(files: &mut BTreeMap<(String, String), u32>, ops: &[FileOp]) {
    let key = |p: &FilePath| (p.dir.clone(), p.name.clone());
    for op in ops {
        match op {
            FileOp::Remove(p) => {
                files.remove(&key(p)).unwrap();
            }
            FileOp::Rename(p, q) => {
                let content = files.remove(&key(p)).unwrap();
                files.insert(key(q), content);
            }
        }
    }
}

#[test]
fn restoring_undoes_a_replacement() {
    let original = path("g", "re_chunk_000.pak.sub_000.pak");
    let written = original.with_extension("pak.temp");
    let mut files = BTreeMap::new();
    files.insert((original.dir.clone(), original.name.clone()), 1);
    files.insert((written.dir.clone(), written.name.clone()), 2);
    files.insert(("g".to_string(), "other".to_string()), 3);
    apply(&mut files, &replace_original(&original, &written, false));
    assert_eq!(files[&(original.dir.clone(), original.name.clone())], 2);
    apply(&mut files, &restore_backup(&original));
    assert_eq!(files[&(original.dir.clone(), original.name.clone())], 1);
    assert_eq!(files.len(), 2);
}

#[test]
fn the_original_is_there_after_every_change() {
    let original = path("g", "re_chunk_000.pak.sub_000.pak");
    let written = original.with_extension("pak.temp");
    let backup = backup_path(&original);
    let key = |p: &FilePath| (p.dir.clone(), p.name.clone());
    for backup_exists in [false, true] {
        let ops = replace_original(&original, &written, backup_exists);
        for k in 0..=ops.len() {
            let mut files = BTreeMap::new();
            files.insert(key(&original), 1);
            files.insert(key(&written), 2);
            if backup_exists {
                files.insert(key(&backup), 3);
            }
            apply(&mut files, &ops[..k]);
            assert!(
                files.get(&key(&original)) == Some(&1) || files.get(&key(&backup)) == Some(&1)
            );
        }
    }
}

#[test]
fn manual_jobs_follow_the_answers() {
    let input = path("g", "re_chunk_000.pak.sub_000.pak");
    let job = manual_job(&input, 0, 1);
    assert_eq!(job.input, input);
    assert_eq!(job.output, path("g", "re_chunk_000.pak.sub_000.uncompressed.pak"));
    assert!(!job.use_full_package_mode && job.use_feature_clone);
    let job = manual_job(&input, 1, 0);
    assert!(job.use_full_package_mode && !job.use_feature_clone);
    assert!(is_true_selection(1) && !is_true_selection(0) && !is_true_selection(2));
}

#[test]
fn a_manual_job_writes_another_file() {
    for (input, output) in [
        ("x", "x.uncompressed.pak"),
        ("x.pak", "x.uncompressed.pak"),
        ("x.uncompressed.pak", "x.uncompressed.uncompressed.pak"),
        (".uncompressed.pak", ".uncompressed.uncompressed.pak"),
    ] {
        assert_eq!(manual_job(&path("g", input), 0, 0).output, path("g", output));
    }
}
