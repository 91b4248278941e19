use mhws_tex_decompressor::chunk::{ChunkName, MajorId};
use mhws_tex_decompressor::order::name_before;
use mhws_tex_decompressor::path::FilePath;
use mhws_tex_decompressor::text::{
    append_decimal, append_padded, chars_of, ends_with, parse_number, same_text, split_dots,
    starts_with, trim_quotes,
};

fn name(s: &str) -> ChunkName {
    ChunkName::try_from_str(s).unwrap()
}

fn path(dir: &str, name: &str) -> FilePath {
    FilePath { dir: dir.to_string(), name: name.to_string() }
}

#[test]
fn quotes_are_trimmed_at_both_ends() {
    assert_eq!(trim_quotes("\"C:\\Games\\Wilds\""), "C:\\Games\\Wilds");
    assert_eq!(trim_quotes("''a'b\"c\"'"), "a'b\"c");
    assert_eq!(trim_quotes("plain"), "plain");
    assert_eq!(trim_quotes("\"'\""), "");
    assert_eq!(trim_quotes(""), "");
    assert_eq!(trim_quotes("'\u{e9}t\u{e9}'"), "\u{e9}t\u{e9}");
}

#[test]
fn prefixes_and_suffixes() {
    assert!(starts_with("re_chunk_000.pak", "re_chunk_"));
    assert!(!starts_with("re_chun", "re_chunk_"));
    assert!(!starts_with("re_dlc_x.pak", "re_chunk_"));
    assert!(starts_with("abc", ""));
    assert!(ends_with("a.pak", ".pak"));
    assert!(!ends_with("pak", ".pak"));
    assert!(!ends_with("a.pak.backup", ".pak"));
    assert!(ends_with("a.pak.backup", ".pak.backup"));
    assert!(same_text("tex", "tex"));
    assert!(!same_text("tex", "te"));
    assert!(!same_text("tex", "tey"));
}

#[test]
fn numbers_are_read_and_written() {
    assert_eq!(parse_number(&chars_of("000")), Some(0));
    assert_eq!(parse_number(&chars_of("042")), Some(42));
    assert_eq!(parse_number(&chars_of("4294967295")), Some(4294967295));
    assert_eq!(parse_number(&chars_of("4294967296")), None);
    assert_eq!(parse_number(&chars_of("99999999999999999999")), None);
    assert_eq!(parse_number(&chars_of("")), None);
    assert_eq!(parse_number(&chars_of("1a")), None);
    assert_eq!(parse_number(&chars_of("-1")), None);
    let mut s = String::new();
    append_padded(&mut s, 7);
    append_padded(&mut s, 42);
    append_padded(&mut s, 999);
    append_padded(&mut s, 1234);
    assert_eq!(s, "0070429991234");
    let mut t = String::from("n=");
    append_decimal(&mut t, 0);
    append_decimal(&mut t, 18446744073709551615);
    assert_eq!(t, "n=018446744073709551615");
}

#[test]
fn dots_split() {
    let parts: Vec<String> = split_dots("a..b.").iter().map(|p| p.iter().collect()).collect();
    assert_eq!(parts, vec!["a", "", "b", ""]);
    assert_eq!(split_dots("").len(), 1);
}

#[test]
fn base_names() {
    let n = name("re_chunk_000.pak");
    assert_eq!(n.major_id(), &MajorId::Chunk(0));
    assert_eq!(n.patch_id(), None);
    assert_eq!(n.sub_id(), None);
    assert_eq!(n.sub_patch_id(), None);
    let d = name("re_dlc_stm_3308900.pak");
    assert_eq!(d.major_id(), &MajorId::Dlc("stm_3308900".to_string()));
}

#[test]
fn component_names() {
    let n = name("re_chunk_000.pak.sub_000.pak");
    assert_eq!((n.patch_id(), n.sub_id(), n.sub_patch_id()), (None, Some(0), None));
    let n = name("re_chunk_001.pak.patch_002.pak");
    assert_eq!((n.patch_id(), n.sub_id(), n.sub_patch_id()), (Some(2), None, None));
    let n = name("re_chunk_001.pak.sub_003.pak.patch_004.pak");
    assert_eq!((n.patch_id(), n.sub_id(), n.sub_patch_id()), (None, Some(3), Some(4)));
    let n = name("re_dlc_x.pak.patch_002.pak.sub_003.pak.patch_004.pak");
    assert_eq!((n.patch_id(), n.sub_id(), n.sub_patch_id()), (Some(2), Some(3), Some(4)));
}

#[test]
fn other_names_are_refused() {
    for s in [
        "",
        "re_chunk_000",
        "re_chunk_.pak",
        "re_chunk_x.pak",
        "re_dlc_.pak",
        "other_000.pak",
        "re_chunk_000.pak.backup",
        "re_chunk_000.pak.sub_000.pak.temp",
        "re_chunk_000.pak.sub_000.uncompressed.pak",
        "re_chunk_000.pak.sub_000.pak.sub_001.pak",
        "re_chunk_000.pak.patch_000.pak.patch_001.pak",
        "re_chunk_000.pak.sub_000.pak.patch_001.pak.patch_002.pak",
        "sub_000.pak",
        "re_chunk_4294967296.pak",
    ] {
        let e = ChunkName::try_from_str(s).unwrap_err();
        assert_eq!(e.name, s);
        assert_eq!(e.message(), format!("Invalid chunk name: {s}"));
    }
}

#[test]
fn spellings_read_back_as_names() {
    for s in [
        "re_chunk_000.pak",
        "re_chunk_012.pak.patch_003.pak",
        "re_chunk_000.pak.sub_000.pak",
        "re_chunk_000.pak.sub_000.pak.patch_1000.pak",
        "re_dlc_stm_3308900.pak.patch_001.pak.sub_002.pak.patch_003.pak",
    ] {
        let n = name(s);
        assert_eq!(n.to_string(), s);
        assert_eq!(name(&n.to_string()), n);
    }
    assert_eq!(name("re_chunk_1.pak.sub_02.pak").to_string(), "re_chunk_001.pak.sub_002.pak");
}

#[test]
fn a_sub_patch_can_be_set() {
    let n = name("re_chunk_000.pak.sub_001.pak").set_sub_patch(5);
    assert_eq!(n.to_string(), "re_chunk_000.pak.sub_001.pak.patch_005.pak");
    let m = name("re_chunk_000.pak.sub_001.pak.patch_004.pak").set_sub_patch(5);
    assert!(n.same(&m));
    assert!(!n.same(&name("re_chunk_000.pak.sub_001.pak")));
    assert!(n.major_id().same(m.major_id()));
    assert!(!n.major_id().same(&MajorId::Dlc("0".to_string())));
}

#[test]
fn names_are_ordered() {
    let sorted = [
        "re_chunk_000.pak",
        "re_chunk_000.pak.sub_000.pak",
        "re_chunk_000.pak.sub_000.pak.patch_001.pak",
        "re_chunk_000.pak.sub_000.pak.patch_010.pak",
        "re_chunk_000.pak.sub_001.pak",
        "re_chunk_000.pak.patch_001.pak",
        "re_chunk_000.pak.patch_001.pak.sub_000.pak",
        "re_chunk_002.pak",
        "re_chunk_010.pak",
        "re_dlc_a.pak",
        "re_dlc_ab.pak",
        "re_dlc_b.pak",
    ];
    for (i, a) in sorted.iter().enumerate() {
        for (j, b) in sorted.iter().enumerate() {
            assert_eq!(name_before(&name(a), &name(b)), i < j, "{a} {b}");
        }
    }
}

#[test]
fn extensions_are_replaced() {
    let p = path("dir", "re_chunk_000.pak.sub_000.pak");
    assert_eq!(p.with_extension("pak.temp"), path("dir", "re_chunk_000.pak.sub_000.pak.temp"));
    assert_eq!(
        p.with_extension("uncompressed.pak"),
        path("dir", "re_chunk_000.pak.sub_000.uncompressed.pak")
    );
    assert_eq!(path("d", "noext").with_extension("x"), path("d", "noext.x"));
    assert_eq!(path("d", ".pak").with_extension("x"), path("d", ".pak.x"));
    assert_eq!(path("d", ".a.b").with_extension("x"), path("d", ".a.x"));
    assert_eq!(path("d", "a.").with_extension("x"), path("d", "a.x"));
    assert_eq!(path("d", "..").with_extension("x"), path("d", ".."));
}

#[test]
fn extensions_are_replaced_as_std_does() {
    for s in ["a.pak", "a", ".pak", ".a.b", "a.b.c", "a.", "..", ".", "x..y"] {
        let std_name = std::path::Path::new(s).with_extension("pak.backup");
        let own = path("", s).with_extension("pak.backup");
        assert_eq!(own.name, std_name.to_str().unwrap(), "{s}");
    }
}
