use mhws_tex_decompressor::chunk::ChunkName;
use mhws_tex_decompressor::files::{backup_path, FileOp};
use mhws_tex_decompressor::metadata::PakMetadata;
use mhws_tex_decompressor::output::{finish_job, plan_jobs};
use mhws_tex_decompressor::path::FilePath;
use mhws_tex_decompressor::restore::{
    patch_files_to_remove, plan_patch_removal, restore_action, PatchRemoval, RestoreAction,
    RestoreScan, ToolEntry,
};
use mhws_tex_decompressor::selection::ChunkSelection;
use std::collections::BTreeMap;

#[derive(Clone, Debug, PartialEq, Eq)]
enum Content {
    Original(u32),
    Marked { full: bool, id: u32 },
}

const EMPTY: Content = Content::Marked { full: false, id: 0 };

type Place = (String, String);
type World = BTreeMap<Place, Content>;

fn place(path: &FilePath) -> Place {
    (path.dir.clone(), path.name.clone())
}

fn at(dir: &str, name: &str) -> Place {
    (dir.to_string(), name.to_string())
}

fn originals(names: &[&str]) -> World {
    names
        .iter()
        .zip(1..)
        .map(|(name, id)| (at("g", name), Content::Original(id)))
        .collect()
}

fn entries(world: &World, latest_first: bool) -> Vec<ToolEntry> {
    let mut entries: Vec<ToolEntry> = world
        .iter()
        .map(|((dir, name), content)| ToolEntry {
            is_file: true,
            path: FilePath { dir: dir.clone(), name: name.clone() },
            mark: Ok(match content {
                Content::Original(_) => None,
                Content::Marked { full, .. } => Some(PakMetadata::new(*full)),
            }),
        })
        .collect();
    if latest_first {
        entries.reverse();
    }
    entries
}

fn apply(world: &mut World, ops: &[FileOp]) {
    for op in ops {
        match op {
            FileOp::Remove(p) => {
                world.remove(&place(p)).unwrap();
            }
            FileOp::Rename(p, q) => {
                let content = world.remove(&place(p)).unwrap();
                world.insert(place(q), content);
            }
        }
    }
}

fn list(world: &World) -> Vec<ChunkSelection> {
    world
        .keys()
        .filter(|(_, name)| name.ends_with(".pak"))
        .filter_map(|(dir, name)| {
            let chunk_name = ChunkName::try_from_str(name).ok()?;
            let full_path = FilePath { dir: dir.clone(), name: name.clone() };
            Some(ChunkSelection { chunk_name, file_size: 1, full_path })
        })
        .collect()
}

fn pack(world: &mut World, selected: &[&str], use_replace_mode: bool) {
    let all = list(world);
    let picks: Vec<ChunkSelection> = selected
        .iter()
        .map(|name| list(world).into_iter().find(|c| c.full_path.name == *name).unwrap())
        .collect();
    for (job, id) in plan_jobs(&picks, &all, use_replace_mode).iter().zip(100..) {
        let content = Content::Marked { full: job.use_full_package_mode, id };
        world.insert(place(&job.output), content);
        let backup_exists = world.contains_key(&place(&backup_path(&job.input)));
        apply(world, &finish_job(job, use_replace_mode, backup_exists));
    }
}

fn restore(world: &mut World, latest_first: bool) {
    let mut scan = RestoreScan::new();
    scan.scan_tool_files_in_directory(&entries(world, latest_first));
    for file in &scan.tool_generated_files {
        let backup_exists = world.contains_key(&place(&backup_path(&file.path)));
        if let RestoreAction::RestoreBackup(ops) = restore_action(file, backup_exists) {
            apply(world, &ops);
        }
    }
    let patches = patch_files_to_remove(&scan.tool_generated_files);
    for step in plan_patch_removal(&patches, &scan.all_chunks) {
        match step {
            PatchRemoval::Delete(p) => {
                world.remove(&place(&p)).unwrap();
            }
            PatchRemoval::CreateEmpty(p) => {
                world.insert(place(&p), EMPTY);
            }
        }
    }
}

const ARCHIVES: [&str; 5] = [
    "re_chunk_000.pak",
    "re_chunk_000.pak.sub_000.pak",
    "re_chunk_000.pak.sub_000.pak.patch_002.pak",
    "re_chunk_000.pak.sub_001.pak",
    "readme.txt",
];

#[test]
fn a_restore_undoes_a_replacing_run() {
    let before = originals(&ARCHIVES);
    for latest_first in [false, true] {
        let mut world = before.clone();
        pack(&mut world, &[ARCHIVES[3], ARCHIVES[1]], true);
        assert_eq!(world.len(), before.len() + 2);
        assert_eq!(world[&at("g", ARCHIVES[3])], Content::Marked { full: true, id: 100 });
        assert_eq!(world[&at("g", ARCHIVES[1])], Content::Marked { full: true, id: 101 });
        assert_eq!(
            world[&at("g", "re_chunk_000.pak.sub_001.pak.backup")],
            before[&at("g", ARCHIVES[3])]
        );
        restore(&mut world, latest_first);
        assert_eq!(world, before);
    }
}

#[test]
fn a_restore_undoes_a_patching_run() {
    let before = originals(&ARCHIVES);
    for latest_first in [false, true] {
        let mut world = before.clone();
        pack(&mut world, &[ARCHIVES[1], ARCHIVES[3]], false);
        assert_eq!(
            world[&at("g", "re_chunk_000.pak.sub_000.pak.patch_003.pak")],
            Content::Marked { full: false, id: 100 }
        );
        assert_eq!(
            world[&at("g", "re_chunk_000.pak.sub_001.pak.patch_001.pak")],
            Content::Marked { full: false, id: 101 }
        );
        restore(&mut world, latest_first);
        assert_eq!(world, before);
    }
}

#[test]
fn a_restore_undoes_patches_of_one_sequence() {
    let before = originals(&ARCHIVES);
    let mut world = before.clone();
    pack(&mut world, &[ARCHIVES[2], ARCHIVES[1], ARCHIVES[3]], false);
    for patch in [
        "re_chunk_000.pak.sub_000.pak.patch_003.pak",
        "re_chunk_000.pak.sub_000.pak.patch_004.pak",
        "re_chunk_000.pak.sub_001.pak.patch_001.pak",
    ] {
        assert!(world.contains_key(&at("g", patch)));
    }
    restore(&mut world, false);
    assert_eq!(world, before);
}

#[test]
fn a_restore_leaves_no_gap() {
    let name = |id: u32| format!("re_chunk_000.pak.sub_000.pak.patch_{id:03}.pak");
    for latest_first in [false, true] {
        for marked in 0..64u32 {
            let mut world = World::new();
            for id in 1..=6 {
                let own = marked >> (id - 1) & 1 == 1;
                let content =
                    if own { Content::Marked { full: false, id } } else { Content::Original(id) };
                world.insert(at("g", &name(id)), content);
            }
            restore(&mut world, latest_first);
            let left = world.len() as u32;
            assert!((1..=left).all(|id| world.contains_key(&at("g", &name(id)))));
        }
    }
}

fn left_by_earlier_runs() -> World {
    let mut world = originals(&[
        "re_chunk_000.pak",
        "re_chunk_000.pak.patch_002.pak",
        "re_chunk_000.pak.sub_000.pak.patch_002.pak",
        "re_chunk_000.pak.sub_001.pak.backup",
        "notes.pak.backup",
        "re_chunk_009.txt",
    ]);
    let marked = |full, id| Content::Marked { full, id };
    for (name, content) in [
        ("re_chunk_000.pak.patch_001.pak", marked(false, 7)),
        ("re_chunk_000.pak.sub_000.pak.patch_001.pak", marked(false, 8)),
        ("re_chunk_000.pak.sub_001.pak", marked(true, 9)),
        ("re_chunk_000.pak.sub_002.pak", marked(true, 10)),
        ("re_chunk_000.pak.sub_003.pak.patch_004.pak", marked(false, 11)),
        ("re_chunk_odd.name.pak", marked(false, 12)),
    ] {
        world.insert(at("g", name), content);
    }
    world
}

#[test]
fn restoring_twice_keeps_a_base_and_patches_in_order() {
    let mut world =
        originals(&["re_chunk_000.pak.patch_002.pak", "re_chunk_001.pak.patch_003.pak"]);
    for name in [
        "re_chunk_000.pak",
        "re_chunk_001.pak.patch_001.pak",
        "re_chunk_001.pak.patch_002.pak",
        "re_chunk_001.pak.patch_004.pak",
    ] {
        world.insert(at("g", name), Content::Marked { full: false, id: 5 });
    }
    restore(&mut world, false);
    let once = world.clone();
    assert_eq!(once[&at("g", "re_chunk_000.pak")], EMPTY);
    assert_eq!(once[&at("g", "re_chunk_001.pak.patch_001.pak")], EMPTY);
    assert_eq!(once[&at("g", "re_chunk_001.pak.patch_002.pak")], EMPTY);
    assert!(!once.contains_key(&at("g", "re_chunk_001.pak.patch_004.pak")));
    for latest_first in [false, true] {
        restore(&mut world, latest_first);
        assert_eq!(world, once);
    }
}

#[test]
fn restoring_twice_does_no_more_than_once() {
    for (first, second) in [(false, false), (false, true), (true, false), (true, true)] {
        let mut world = left_by_earlier_runs();
        restore(&mut world, first);
        let once = world.clone();
        assert_eq!(once[&at("g", "re_chunk_000.pak.patch_001.pak")], EMPTY);
        assert_eq!(once[&at("g", "re_chunk_000.pak.sub_000.pak.patch_001.pak")], EMPTY);
        assert_eq!(once[&at("g", "re_chunk_000.pak.sub_001.pak")], Content::Original(4));
        assert!(!once.contains_key(&at("g", "re_chunk_000.pak.sub_001.pak.backup")));
        assert!(!once.contains_key(&at("g", "re_chunk_000.pak.sub_003.pak.patch_004.pak")));
        restore(&mut world, second);
        assert_eq!(world, once);
    }
}

#[test]
fn a_restore_touches_only_own_files() {
    let before = left_by_earlier_runs();
    let mut after = before.clone();
    restore(&mut after, false);
    for p in after.keys() {
        assert!(before.contains_key(p));
    }
    for (p, content) in &before {
        let own = matches!(content, Content::Marked { .. });
        if !own && p.1 != "re_chunk_000.pak.sub_001.pak.backup" {
            assert_eq!(after.get(p), Some(content));
        }
    }
    assert_eq!(
        after[&at("g", "re_chunk_000.pak.sub_002.pak")],
        before[&at("g", "re_chunk_000.pak.sub_002.pak")]
    );
    assert_eq!(
        after[&at("g", "re_chunk_odd.name.pak")],
        before[&at("g", "re_chunk_odd.name.pak")]
    );
}

#[test]
fn two_scans_find_what_one_finds() {
    let all = entries(&left_by_earlier_runs(), false);
    let mut one = RestoreScan::new();
    one.scan_tool_files_in_directory(&all);
    let mut two = RestoreScan::new();
    let second = entries(&left_by_earlier_runs(), false).split_off(5);
    let mut first = entries(&left_by_earlier_runs(), false);
    first.truncate(5);
    two.scan_tool_files_in_directory(&first);
    two.scan_tool_files_in_directory(&second);
    assert_eq!(one, two);
}
