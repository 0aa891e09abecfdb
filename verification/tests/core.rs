use std::path::PathBuf;

use sdt_core::classify::{classify_dir, Class, EntryClass, ExtraRule, RawEntry};
use sdt_core::codec::{decode, encode, is_canonical_dir_name, storage_name, valid_index};
use sdt_core::derive::{derive_subtree, subtree_in_range};
use sdt_core::kind::Kind;
use sdt_core::sidecar::Sidecar;

fn file(name: &str, len: u64) -> RawEntry {
    RawEntry {
        name: name.to_string(),
        path: PathBuf::from(name),
        is_file: true,
        is_dir: false,
        len,
    }
}

fn dir(name: &str) -> RawEntry {
    RawEntry {
        name: name.to_string(),
        path: PathBuf::from(name),
        is_file: false,
        is_dir: true,
        len: 4096,
    }
}

fn class_named(entries: Vec<RawEntry>, name: &str) -> Class {
    classify_dir(entries)
        .into_iter()
        .find(|e| e.name == name)
        .unwrap()
        .class
}

/// The subtree sidecar of a node whose subdirectories (in entry order) have
/// the subtree sidecars `children`.
fn subtree(entries: Vec<RawEntry>, children: Vec<Sidecar>) -> Sidecar {
    let classified: Vec<EntryClass> = classify_dir(entries);
    assert!(subtree_in_range(&classified, &children));
    derive_subtree(&classified, &children)
}

#[test]
fn codec_round_trips_large_range() {
    for kind in [Kind::File, Kind::Dir] {
        for n in 1..=200_000 {
            let s = encode(n, kind).unwrap();
            assert_eq!(decode(&s, kind).unwrap(), n);
        }
    }
}

#[test]
fn codec_valid_string_sweep_and_trap() {
    assert_eq!(decode("z", Kind::File).unwrap(), 26);
    assert_eq!(decode("aa", Kind::File).unwrap(), 27);
    for kind in [Kind::File, Kind::Dir] {
        for n in 1..=kind.capacity() {
            let s = encode(n, kind).unwrap();
            assert!(valid_index(&s, kind));
            assert_eq!(encode(decode(&s, kind).unwrap(), kind).unwrap(), s);
        }
    }
}

#[test]
fn sidecar_parse_rejects_not_nine_lines() {
    assert!(Sidecar::parse("a\n").is_err());
    assert!(Sidecar::parse("a\n0\n0\n0\n0\n0\n0\n0\n0\n").is_ok());
}

#[test]
fn classifier_rule_5_edges_and_non_locality() {
    let mut entries = vec![file("j", 1)];
    assert!(matches!(
        class_named(entries, "j"),
        Class::CoveredFile { ordinal: 10 }
    ));
    entries = vec![file("j", 1), file("u", 1)];
    assert!(matches!(
        class_named(entries, "u"),
        Class::ExtraFile {
            rule: ExtraRule::TenMissingPredecessors
        }
    ));
    entries = vec![file("j", 1), file("u", 1), file("p", 1)];
    assert!(matches!(
        class_named(entries, "u"),
        Class::CoveredFile { ordinal: 21 }
    ));
    entries = vec![file("j", 1), file("u", 1)];
    assert!(matches!(
        class_named(entries, "u"),
        Class::ExtraFile {
            rule: ExtraRule::TenMissingPredecessors
        }
    ));
}

fn all_rules_node() -> Vec<RawEntry> {
    vec![
        file("long", 1),
        file(".x", 1),
        dir("AB"),
        dir("_07"),
        file("A", 1),
        dir("b"),
        file("z", 1),
        file("aa", 1),
        dir("0"),
        dir("_A"),
    ]
}

#[test]
fn classifier_all_rules_and_underscore_prefix() {
    assert!(matches!(
        class_named(all_rules_node(), "long"),
        Class::ExtraFile {
            rule: ExtraRule::NameTooLong
        }
    ));
    assert!(matches!(
        class_named(all_rules_node(), ".x"),
        Class::ExtraFile {
            rule: ExtraRule::NonAlnum
        }
    ));
    assert!(matches!(
        class_named(all_rules_node(), "AB"),
        Class::ExtraDir {
            rule: ExtraRule::NonCanonicalDirForm
        }
    ));
    assert!(matches!(
        class_named(all_rules_node(), "_07"),
        Class::ExtraDir {
            rule: ExtraRule::NonCanonicalDirForm
        }
    ));
    assert!(matches!(
        class_named(all_rules_node(), "A"),
        Class::ExtraFile {
            rule: ExtraRule::FileNamedDirIndex
        }
    ));
    assert!(matches!(
        class_named(all_rules_node(), "b"),
        Class::ExtraDir {
            rule: ExtraRule::DirNamedFileIndex
        }
    ));
    assert!(matches!(
        class_named(all_rules_node(), "aa"),
        Class::CoveredFile { ordinal: 27 }
    ));
    assert!(matches!(
        class_named(all_rules_node(), "_A"),
        Class::CoveredDir { ordinal: 11 }
    ));
}

#[test]
fn underscore_prefix_codec_and_canonical_form() {
    assert_eq!(encode(11, Kind::Dir).unwrap(), "A");
    assert_eq!(storage_name(11, Kind::Dir).unwrap(), "_A");
    assert_eq!(storage_name(1, Kind::Dir).unwrap(), "0");
    assert_eq!(storage_name(10, Kind::Dir).unwrap(), "9");
    assert_eq!(storage_name(27, Kind::File).unwrap(), "aa");
    assert_eq!(decode("_A", Kind::Dir).unwrap(), 11);
    assert_eq!(decode("A", Kind::Dir).unwrap(), 11);
    assert!(is_canonical_dir_name("0"));
    assert!(is_canonical_dir_name("_A"));
    assert!(is_canonical_dir_name("_ZZZ"));
    assert!(!is_canonical_dir_name("A"));
    assert!(!is_canonical_dir_name("_0"));
    assert!(!is_canonical_dir_name("_ZZZZ"));
}

#[test]
fn last_dir_is_logical_index_without_prefix() {
    let mut entries = Vec::new();
    let mut children = Vec::new();
    for n in 1..=11 {
        entries.push(dir(&storage_name(n, Kind::Dir).unwrap()));
        children.push(subtree(Vec::new(), Vec::new()));
    }
    let sidecar = subtree(entries, children);
    assert_eq!(sidecar.last_dir, "A");
    assert_eq!(sidecar.missing_dirs, 0);
    assert_eq!(sidecar.total_dirs, 11);
}

#[test]
fn derives_worked_example_bytes() {
    let d0 = subtree(vec![file("a", 5_000)], Vec::new());
    let d1 = subtree(vec![file("a", 6_000), file("b", 7_000)], Vec::new());
    let d20 = subtree(vec![file("a", 13_000), file("b", 213)], Vec::new());
    let d2 = subtree(vec![dir("0")], vec![d20]);
    let got = subtree(
        vec![
            file("a", 1_000),
            file("b", 2_000),
            file("c", 3_000),
            file("README", 4_000),
            dir("0"),
            dir("1"),
            dir("2"),
        ],
        vec![d0, d1, d2],
    )
    .serialize();
    assert_eq!(got, "c\n2\n1\n0\n0\n0\n9\n4\n41213\n");
}
