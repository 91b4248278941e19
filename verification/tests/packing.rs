use mhws_tex_decompressor::pack::{
    cloned_attr, copied_len, entry_action, EntryAction, EntrySample, PackProgress, PackagePlan,
    PrefixReader, TexHashes, MAGIC_LEN,
};

fn sample(hash: u64, magic_read: bool, extension: Option<&str>) -> EntrySample {
    EntrySample { hash, magic_read, extension: extension.map(|e| e.to_string()) }
}

fn samples() -> Vec<EntrySample> {
    vec![
        sample(10, true, Some("tex")),
        sample(11, true, Some("mesh")),
        sample(12, true, None),
        sample(13, false, Some("tex")),
        sample(14, true, Some("tex")),
        sample(14, true, Some("tex")),
    ]
}

#[test]
fn textures_are_detected() {
    let found = TexHashes::detect(&samples());
    assert_eq!(found.len(), 2);
    for (hash, there) in [(10, true), (11, false), (12, false), (13, false), (14, true)] {
        assert_eq!(found.contains(hash), there);
    }
}

#[test]
fn a_texture_archive_is_made_for_its_textures_and_its_mark() {
    let plan = PackagePlan::textures(&samples());
    assert_eq!((plan.entry_count, plan.slot_count), (2, 3));
    assert!(!plan.metadata.is_full_package());
    assert!(plan.includes(10) && !plan.includes(11) && !plan.includes(99));
}

#[test]
fn a_full_archive_is_made_for_every_file_and_its_mark() {
    let plan = PackagePlan::full(41);
    assert_eq!((plan.entry_count, plan.slot_count), (41, 42));
    assert!(plan.metadata.is_full_package());
    assert!(plan.includes(0) && plan.includes(u64::MAX));
}

#[test]
fn an_empty_patch_holds_its_mark_alone() {
    let plan = PackagePlan::empty_patch();
    assert_eq!((plan.entry_count, plan.slot_count), (0, 1));
    assert!(!plan.metadata.is_full_package());
    assert!(!plan.includes(10));
}

#[test]
fn textures_are_decompressed_and_the_rest_copied() {
    let tex = Some("tex".to_string());
    let mesh = Some("mesh".to_string());
    assert_eq!(entry_action(true, &tex), EntryAction::Decompress);
    assert_eq!(entry_action(true, &mesh), EntryAction::Copy);
    assert_eq!(entry_action(true, &None), EntryAction::Copy);
    assert_eq!(entry_action(false, &None), EntryAction::Decompress);
}

#[test]
fn unknown_attributes_are_kept() {
    assert_eq!(cloned_attr(true, 0xff01, 0x00ff), Some(0xff00));
    assert_eq!(cloned_attr(false, 0xff01, 0x00ff), None);
}

fn prefix(source: &[u8], step: usize, max_len: usize) -> Vec<u8> {
    let mut reader = PrefixReader::new(max_len);
    let mut at = 0;
    while reader.wanted() > 0 {
        let n = step.min(reader.wanted()).min(source.len() - at);
        reader.accept(&source[at..at + n].to_vec());
        at += n;
    }
    reader.into_bytes()
}

#[test]
fn a_prefix_is_the_beginning_of_the_stream() {
    let source: Vec<u8> = (0..20).collect();
    for step in [1, 3, 8, 100] {
        assert_eq!(prefix(&source, step, MAGIC_LEN), (0..8).collect::<Vec<u8>>());
        assert_eq!(prefix(&source[..5], step, MAGIC_LEN), (0..5).collect::<Vec<u8>>());
        assert_eq!(prefix(&[], step, MAGIC_LEN), Vec::<u8>::new());
        assert_eq!(prefix(&source, step, 0), Vec::<u8>::new());
    }
}

#[test]
fn progress_shows_bytes_every_hundred_files() {
    let mut progress = PackProgress::new();
    progress.add_bytes(copied_len(8, 1_492));
    for i in 1..=200u64 {
        let message = progress.file_done();
        assert_eq!(progress.files_done, i);
        if i % 100 == 0 {
            assert_eq!(message, Some("1.46 KiB".to_string()));
        } else {
            assert_eq!(message, None);
        }
    }
    assert_eq!(progress.bytes_written, 1500);
    progress.add_bytes(usize::MAX);
    assert_eq!(progress.bytes_written, 1499);
}

#[test]
fn both_packages_treat_a_file_alike() {
    let found = samples();
    let full = PackagePlan::full(found.len());
    let textures = PackagePlan::textures(&found);
    for s in &found {
        assert!(full.includes(s.hash));
        let extension = if s.magic_read { s.extension.clone() } else { None };
        let action = entry_action(true, &extension);
        if textures.includes(s.hash) {
            assert_eq!(action, EntryAction::Decompress);
            assert_eq!(entry_action(false, &extension), EntryAction::Decompress);
        } else {
            assert_eq!(action, EntryAction::Copy);
        }
    }
}
