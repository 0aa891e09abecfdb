use std::path::PathBuf;

use sdt_core::check::{check_sidecar, CheckFinding};
use sdt_core::derive::subtree_in_range;
use sdt_core::naming::{compact_moves, plan_names};
use sdt_core::portability::{portability_issues, PortabilityIssue};
use sdt_core::{classify_dir, derive_subtree, Class, EntryClass, Kind, RawEntry, Sidecar};

fn file(name: &str, contents: &[u8]) -> RawEntry {
    RawEntry {
        name: name.to_string(),
        path: PathBuf::from(name),
        is_file: true,
        is_dir: false,
        len: contents.len() as u64,
    }
}

fn dir(name: &str) -> RawEntry {
    RawEntry {
        name: name.to_string(),
        path: PathBuf::from(name),
        is_file: false,
        is_dir: true,
        len: 0,
    }
}

/// The subtree sidecar of a node given its entries and its subdirectories'
/// subtree sidecars in entry order.
fn subtree(entries: Vec<RawEntry>, children: Vec<Sidecar>) -> Sidecar {
    let classified: Vec<EntryClass> = classify_dir(entries);
    let dirs = classified
        .iter()
        .filter(|e| matches!(e.class, Class::CoveredDir { .. } | Class::ExtraDir { .. }))
        .count();
    assert_eq!(dirs, children.len());
    assert!(subtree_in_range(&classified, &children));
    derive_subtree(&classified, &children)
}

/// Whether a `.0` text conforms to the node's present state.
fn conforms(text: &str, derived: &Sidecar) -> bool {
    check_sidecar(Some(text), Some(derived), true).is_none()
}

#[test]
fn check_sidecar_corruption_exit_codes() {
    let derived = subtree(vec![file("a", b"a")], Vec::new());
    let written = derived.serialize();
    assert!(conforms(&written, &derived));
    assert!(Sidecar::parse("b\n\n0\n0\n0\n0\n1\n0\n1\n").is_ok());
    assert!(!conforms("b\n\n0\n0\n0\n0\n1\n0\n1\n", &derived));
    assert_eq!(
        check_sidecar(Some("b\n\n0\n0\n0\n0\n1\n0\n1\n"), Some(&derived), false),
        Some(CheckFinding::Drift)
    );
    assert!(Sidecar::parse("too\nfew\n").is_err());
    assert!(!conforms("too\nfew\n", &derived));
    assert_eq!(
        check_sidecar(Some("too\nfew\n"), Some(&derived), false),
        Some(CheckFinding::Malformed("sidecar has 2 lines, expected 9".to_string()))
    );
}

#[test]
fn recursive_sidecar_check_round_trips_shapes() {
    let d0 = subtree(vec![file("a", b"nested")], Vec::new());
    let d1 = subtree(Vec::new(), Vec::new());
    let db = subtree(Vec::new(), Vec::new());
    let root = subtree(
        vec![
            dir("0"),
            dir("1"),
            dir("b"),
            file("a", b"a"),
            file("c", b"c"),
            file("README", b"x"),
            file("u", b"rule5"),
        ],
        vec![d0.clone(), d1.clone(), db.clone()],
    );
    for s in [&d0, &d1, &db, &root] {
        assert!(conforms(&s.serialize(), s));
    }
    assert_eq!(root.extra_files, 2);
    assert_eq!(root.extra_dirs, 1);
    assert_eq!(root.total_files, 5);
    assert_eq!(root.total_dirs, 3);
    assert_eq!(root.total_bytes, 1 + 1 + 1 + 5 + 6);
}

#[test]
fn name_and_compact_work() {
    let entries = classify_dir(vec![file("a", b"a"), file("c", b"c")]);
    assert_eq!(
        plan_names(&entries, Kind::File, 1, true),
        (vec!["b".to_string()], false)
    );
    assert_eq!(
        plan_names(&entries, Kind::File, 1, false),
        (vec!["d".to_string()], false)
    );
    let moves = compact_moves(&entries, Kind::File);
    assert_eq!(moves, vec![("c".to_string(), "b".to_string())]);
    let after: Vec<String> = entries
        .iter()
        .map(|e| {
            moves
                .iter()
                .find(|(old, _)| *old == e.name)
                .map(|(_, new)| new.clone())
                .unwrap_or_else(|| e.name.clone())
        })
        .collect();
    assert!(after.contains(&"b".to_string()));
    assert!(!after.contains(&"c".to_string()));
}

#[test]
fn portability_flags_aux() {
    let entries = classify_dir(vec![file("aux", b"x")]);
    let issues = portability_issues(&entries);
    assert_eq!(issues.len(), 1);
    assert!(matches!(&issues[0], PortabilityIssue::ReservedName(n) if n == "aux"));
}
