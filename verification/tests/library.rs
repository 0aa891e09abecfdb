use std::collections::HashSet;
use std::path::PathBuf;

use sdt_core::check::{check_sidecar, CheckFinding};
use sdt_core::code::{code_arg, encodes, validate_arg, CodeError};
use sdt_core::codec::{decode_in_range, infer_kind};
use sdt_core::decimal::{decimal, parse_decimal, IntErrorKind};
use sdt_core::derive::{covered_ordinals, max_covered_ordinal, subtree_in_range};
use sdt_core::labels::{class_label, filtered, kind_name, kinds, rule_label};
use sdt_core::naming::{
    at_soft_cap, compact_moves, first_covered_file, manifest_line, next_name, pack_slot, plan_names,
    split_manifest_line,
};
use sdt_core::order::stable_sort_by_key;
use sdt_core::portability::{portability_issues, to_ascii_lowercase, PortabilityIssue};
use sdt_core::{
    classify_dir, decode, derive_local, derive_subtree, encode, fragile, gaps, has_ten_missing,
    storage_name, valid_index, Class, CodecError, EntryClass, ExtraRule, Kind, RawEntry, Sidecar,
};

fn raw(name: &str, is_file: bool, is_dir: bool, len: u64) -> RawEntry {
    RawEntry {
        name: name.to_string(),
        path: PathBuf::from(name),
        is_file,
        is_dir,
        len,
    }
}

fn files(names: &[&str]) -> Vec<EntryClass> {
    classify_dir(names.iter().map(|n| raw(n, true, false, 1)).collect())
}

fn class_of(entries: &[EntryClass], name: &str) -> Class {
    entries.iter().find(|e| e.name == name).unwrap().class
}

#[test]
fn alphabets_and_capacities() {
    assert_eq!(Kind::File.alphabet(), "abcdefghijklmnopqrstuvwxyz");
    assert_eq!(Kind::Dir.alphabet(), "0123456789ABCDEFGHIJKLMNOPQRSTUVWXYZ");
    assert_eq!(Kind::File.capacity(), 26 + 26 * 26 + 26 * 26 * 26);
    assert_eq!(Kind::Dir.capacity(), 36 + 36 * 36 + 36 * 36 * 36);
    assert_eq!(encode(Kind::File.capacity(), Kind::File).unwrap(), "zzz");
    assert_eq!(encode(Kind::Dir.capacity(), Kind::Dir).unwrap(), "ZZZ");
    assert_eq!(encode(Kind::File.capacity() + 1, Kind::File).unwrap(), "aaaa");
    assert!(!valid_index("aaaa", Kind::File));
}

#[test]
fn codec_errors() {
    assert_eq!(encode(0, Kind::File), Err(CodecError::Zero));
    assert_eq!(decode("", Kind::File), Err(CodecError::Empty));
    assert_eq!(decode("_", Kind::Dir), Err(CodecError::Empty));
    assert_eq!(decode("aB", Kind::File), Err(CodecError::InvalidDigit('B')));
    assert_eq!(decode("_a", Kind::File), Err(CodecError::InvalidDigit('_')));
    assert_eq!(decode("__A", Kind::Dir), Err(CodecError::InvalidDigit('_')));
    assert_eq!(decode("Zé", Kind::Dir), Err(CodecError::InvalidDigit('é')));
    assert_eq!(storage_name(0, Kind::Dir), Err(CodecError::Zero));
}

#[test]
fn codec_exact_values() {
    assert_eq!(encode(1, Kind::File).unwrap(), "a");
    assert_eq!(encode(1, Kind::Dir).unwrap(), "0");
    assert_eq!(encode(27, Kind::Dir).unwrap(), "Q");
    assert_eq!(encode(28, Kind::Dir).unwrap(), "R");
    assert_eq!(encode(37, Kind::Dir).unwrap(), "00");
    assert_eq!(decode("zz", Kind::File).unwrap(), 26 + 26 * 26);
    assert_eq!(storage_name(37, Kind::Dir).unwrap(), "00");
    assert_eq!(storage_name(46, Kind::Dir).unwrap(), "09");
    assert_eq!(storage_name(47, Kind::Dir).unwrap(), "_0A");
    // decimal value of a 14-letter index is past u64 only from some length on
    assert!(decode_in_range("zzz", Kind::File));
    assert!(decode_in_range("zzzzzzzzzzzzzz!", Kind::File) == decode_in_range("zzzzzzzzzzzzzz", Kind::File));
    assert!(!decode_in_range("zzzzzzzzzzzzzzzzzzzz", Kind::File));
    assert!(decode_in_range("a!zzzzzzzzzzzzzzzzzzzzzz", Kind::File));
    assert_eq!(infer_kind("abc"), Kind::File);
    assert_eq!(infer_kind(""), Kind::File);
    assert_eq!(infer_kind("a1"), Kind::Dir);
}

#[test]
fn valid_indices_of_the_two_kinds_are_disjoint() {
    for n in 1..=Kind::File.capacity() {
        assert!(!valid_index(&encode(n, Kind::File).unwrap(), Kind::Dir));
    }
    for n in 1..=Kind::Dir.capacity() {
        assert!(!valid_index(&encode(n, Kind::Dir).unwrap(), Kind::File));
    }
}

#[test]
fn storage_names_are_canonical_and_decode_back() {
    for n in 1..=Kind::Dir.capacity() {
        let s = storage_name(n, Kind::Dir).unwrap();
        assert!(sdt_core::is_canonical_dir_name(&s));
        assert_eq!(decode(&s, Kind::Dir).unwrap(), n);
    }
}

#[test]
fn decimal_parse_matches_std() {
    for s in [
        "", "+", "-", "0", "+5", "-5", "007", "12a", "18446744073709551615",
        "18446744073709551616", "99999999999999999999x", "x99999999999999999999", " 1", "١",
    ] {
        let ours = parse_decimal(s);
        let std = s.parse::<u64>();
        match (ours, std) {
            (Ok(a), Ok(b)) => assert_eq!(a, b, "{s:?}"),
            (Err(IntErrorKind::Empty), Err(e)) => {
                assert_eq!(*e.kind(), std::num::IntErrorKind::Empty, "{s:?}")
            }
            (Err(IntErrorKind::InvalidDigit), Err(e)) => {
                assert_eq!(*e.kind(), std::num::IntErrorKind::InvalidDigit, "{s:?}")
            }
            (Err(IntErrorKind::PosOverflow), Err(e)) => {
                assert_eq!(*e.kind(), std::num::IntErrorKind::PosOverflow, "{s:?}")
            }
            (a, b) => panic!("{s:?}: {a:?} vs {b:?}"),
        }
    }
    for n in [0u64, 9, 10, 12345, u64::MAX] {
        assert_eq!(decimal(n), n.to_string());
        assert_eq!(parse_decimal(&decimal(n)), Ok(n));
    }
}

fn example_sidecar() -> Sidecar {
    Sidecar {
        last_file: "c".to_string(),
        last_dir: "2".to_string(),
        extra_files: 1,
        extra_dirs: 0,
        missing_files: 0,
        missing_dirs: 0,
        total_files: 9,
        total_dirs: 4,
        total_bytes: 41213,
    }
}

#[test]
fn sidecar_round_trip_and_errors() {
    let s = example_sidecar();
    let text = s.serialize();
    assert_eq!(text, "c\n2\n1\n0\n0\n0\n9\n4\n41213\n");
    assert_eq!(Sidecar::parse(&text), Ok(s));
    let empty = Sidecar {
        last_file: String::new(),
        last_dir: String::new(),
        extra_files: 0,
        extra_dirs: 0,
        missing_files: 0,
        missing_dirs: 0,
        total_files: 0,
        total_dirs: u64::MAX,
        total_bytes: 0,
    };
    assert_eq!(Sidecar::parse(&empty.serialize()), Ok(empty));
    assert_eq!(
        Sidecar::parse("c\n2\n1\n0\n0\n0\n9\n4\n41213"),
        Err("sidecar must be newline-terminated".to_string())
    );
    assert_eq!(
        Sidecar::parse("too\nfew\n"),
        Err("sidecar has 2 lines, expected 9".to_string())
    );
    assert_eq!(
        Sidecar::parse("\n"),
        Err("sidecar has 1 lines, expected 9".to_string())
    );
    assert_eq!(
        Sidecar::parse("c\n2\n1\nx\n0\n0\n9\n4\nbad\n"),
        Err("extra_dirs is not a decimal integer".to_string())
    );
    assert_eq!(
        Sidecar::parse("c\n2\n1\n0\n0\n0\n9\n4\n+7\n").unwrap().total_bytes,
        7
    );
}

#[test]
fn has_ten_missing_window() {
    let mut present = HashSet::new();
    assert!(!has_ten_missing(10, &present));
    assert!(has_ten_missing(11, &present));
    present.insert(1);
    assert!(!has_ten_missing(11, &present));
    assert!(has_ten_missing(12, &present));
    present.insert(7);
    assert!(!has_ten_missing(12, &present));
    assert!(!has_ten_missing(17, &present));
    assert!(has_ten_missing(18, &present));
}

#[test]
fn classify_sidecar_other_and_non_ascii() {
    let entries = classify_dir(vec![
        raw(".0", true, false, 9),
        raw("x", false, false, 0),
        raw("éé", true, false, 1),
        raw("é", true, false, 1),
        raw("_é", false, true, 1),
        raw("_", false, true, 1),
        raw("aa", true, false, 1),
        raw("z", true, false, 1),
        raw("AA", false, true, 1),
    ]);
    let names: Vec<&str> = entries.iter().map(|e| e.name.as_str()).collect();
    assert_eq!(names, vec![".0", "AA", "_", "_é", "aa", "x", "z", "é", "éé"]);
    assert_eq!(class_of(&entries, ".0"), Class::Sidecar);
    assert_eq!(
        class_of(&entries, "x"),
        Class::ExtraOther { rule: ExtraRule::UnsupportedType }
    );
    assert_eq!(
        class_of(&entries, "éé"),
        Class::ExtraFile { rule: ExtraRule::NameTooLong }
    );
    assert_eq!(
        class_of(&entries, "é"),
        Class::ExtraFile { rule: ExtraRule::NonAlnum }
    );
    assert_eq!(
        class_of(&entries, "_é"),
        Class::ExtraDir { rule: ExtraRule::NonAlnum }
    );
    assert_eq!(
        class_of(&entries, "_"),
        Class::ExtraDir { rule: ExtraRule::NameTooLong }
    );
    // case-sensitive: file `aa` and directory `AA` classify independently
    assert_eq!(class_of(&entries, "aa"), Class::CoveredFile { ordinal: 27 });
    assert_eq!(
        class_of(&entries, "AA"),
        Class::ExtraDir { rule: ExtraRule::NonCanonicalDirForm }
    );
}

#[test]
fn rule_six_run_lengths() {
    // nothing in n-1..n-4 but an entry at n-5: a run of four, so covered
    let entries = files(&["j", "e"]);
    assert_eq!(class_of(&entries, "j"), Class::CoveredFile { ordinal: 10 });
    let entries = files(&["o", "j"]);
    assert_eq!(class_of(&entries, "o"), Class::CoveredFile { ordinal: 15 });
    // exactly ten vacant slots below: extra; nine vacant and one present: covered
    let entries = files(&["a", "l"]);
    assert_eq!(
        class_of(&entries, "l"),
        Class::ExtraFile { rule: ExtraRule::TenMissingPredecessors }
    );
    let entries = files(&["b", "l"]);
    assert_eq!(class_of(&entries, "l"), Class::CoveredFile { ordinal: 12 });
}

#[test]
fn local_fields_use_ordinal_order() {
    let entries = files(&["j", "t", "z", "aa", "README"]);
    let local = derive_local(&entries);
    assert_eq!(local.last_file, "aa");
    assert_eq!(local.missing_files, 23);
    assert_eq!(local.extra_files, 1);
    assert_eq!(local.total_files, 5);
    assert_eq!(local.total_bytes, 0);
    assert_eq!(local.last_dir, "");
}

#[test]
fn sidecar_entries_are_not_counted() {
    let with = classify_dir(vec![raw(".0", true, false, 999), raw("a", true, false, 5)]);
    let without = classify_dir(vec![raw("a", true, false, 5)]);
    assert_eq!(derive_local(&with), derive_local(&without));
    assert!(subtree_in_range(&with, &Vec::new()));
    let a = derive_subtree(&with, &Vec::new());
    assert_eq!(a, derive_subtree(&without, &Vec::new()));
    assert_eq!(a.total_bytes, 5);
    assert_eq!(a.total_files, 1);
}

#[test]
fn subtree_overflow_is_detected() {
    let entries = classify_dir(vec![raw("a", true, false, u64::MAX), raw("b", true, false, 1)]);
    assert!(!subtree_in_range(&entries, &Vec::new()));
    let entries = classify_dir(vec![raw("a", true, false, u64::MAX)]);
    assert!(subtree_in_range(&entries, &Vec::new()));
}

#[test]
fn gaps_and_missing_agree() {
    let entries = files(&["a", "c", "e"]);
    assert_eq!(gaps(&entries, Kind::File), vec![2, 4]);
    assert_eq!(derive_local(&entries).missing_files, 2);
    assert_eq!(gaps(&entries, Kind::Dir), Vec::<u64>::new());
    let dense = files(&["a", "b", "c"]);
    assert!(gaps(&dense, Kind::File).is_empty());
    assert_eq!(derive_local(&dense).missing_files, 0);
}

#[test]
fn fragile_rows() {
    let entries = files(&["u", "p", "j", "a"]);
    let rows = fragile(&entries, Kind::File);
    assert_eq!(
        rows,
        vec![
            ("a".to_string(), 1, 0, false),
            ("j".to_string(), 10, 8, false),
            ("p".to_string(), 16, 9, true),
            ("u".to_string(), 21, 9, true),
        ]
    );
}

#[test]
fn covered_ordinal_helpers() {
    let entries = files(&["a", "c", "README"]);
    let set = covered_ordinals(&entries, Kind::File);
    assert_eq!(set, HashSet::from([1, 3]));
    assert_eq!(max_covered_ordinal(&entries, Kind::File), 3);
    assert_eq!(max_covered_ordinal(&entries, Kind::Dir), 0);
    assert_eq!(first_covered_file(&entries), Some(1));
    assert_eq!(entries[1].name, "a");
    assert_eq!(first_covered_file(&files(&["README"])), None);
}

#[test]
fn next_names() {
    let entries = files(&["a", "c"]);
    assert_eq!(next_name(&entries, Kind::File, true), Some("b".to_string()));
    assert_eq!(next_name(&entries, Kind::File, false), Some("d".to_string()));
    assert_eq!(next_name(&entries, Kind::Dir, false), Some("0".to_string()));
    assert_eq!(next_name(&files(&["zzy", "zzz"]), Kind::File, false), None);
    assert_eq!(next_name(&files(&["zzz"]), Kind::File, false), Some("a".to_string()));
    let dirs: Vec<RawEntry> = (1..=10)
        .map(|n| raw(&storage_name(n, Kind::Dir).unwrap(), false, true, 0))
        .collect();
    assert_eq!(next_name(&classify_dir(dirs), Kind::Dir, false), Some("_A".to_string()));
}

#[test]
fn planned_names() {
    let entries = files(&["a", "c"]);
    assert_eq!(
        plan_names(&entries, Kind::File, 3, true),
        (vec!["b".to_string(), "d".to_string(), "e".to_string()], false)
    );
    assert_eq!(
        plan_names(&entries, Kind::File, 2, false),
        (vec!["d".to_string(), "e".to_string()], false)
    );
    assert_eq!(
        plan_names(&files(&["zzx", "zzy"]), Kind::File, 3, false),
        (vec!["zzz".to_string()], true)
    );
    assert_eq!(plan_names(&entries, Kind::File, 0, false), (Vec::new(), false));
}

#[test]
fn compaction_moves() {
    let entries = files(&["a", "c"]);
    assert_eq!(
        compact_moves(&entries, Kind::File),
        vec![("c".to_string(), "b".to_string())]
    );
    assert!(compact_moves(&entries, Kind::Dir).is_empty());
    let dirs = classify_dir(vec![raw("3", false, true, 0), raw("_A", false, true, 0)]);
    assert_eq!(
        compact_moves(&dirs, Kind::Dir),
        vec![
            ("3".to_string(), "0".to_string()),
            ("_A".to_string(), "1".to_string())
        ]
    );
}

#[test]
fn pack_slots() {
    assert_eq!(pack_slot(1, 3000), (None, "a".to_string()));
    assert_eq!(pack_slot(2, 1), (Some("0".to_string()), "a".to_string()));
    assert_eq!(pack_slot(3001, 3000), (Some("0".to_string()), "a".to_string()));
    assert_eq!(pack_slot(28, 28), (None, "ab".to_string()));
    assert_eq!(pack_slot(29, 28), (Some("0".to_string()), "a".to_string()));
    let mut seen = HashSet::new();
    for o in 1..=500 {
        assert!(seen.insert(pack_slot(o, 7)));
    }
}

#[test]
fn manifest_lines() {
    assert_eq!(
        split_manifest_line("a\tsub/leaf.txt"),
        Some(("a".to_string(), "sub/leaf.txt".to_string()))
    );
    assert_eq!(
        split_manifest_line("a\tb\tc"),
        Some(("a".to_string(), "b\tc".to_string()))
    );
    assert_eq!(split_manifest_line("abc"), None);
}

#[test]
fn portability_hazards() {
    let entries = classify_dir(vec![
        raw("aux", true, false, 1),
        raw("aa", true, false, 1),
        raw("AA", false, true, 0),
        raw("Con", true, false, 1),
        raw(".0", true, false, 1),
    ]);
    let issues = portability_issues(&entries);
    let described: Vec<String> = issues
        .iter()
        .map(|i| match i {
            PortabilityIssue::EntryCap => "entries".to_string(),
            PortabilityIssue::SubdirCap => "subdirs".to_string(),
            PortabilityIssue::ReservedName(n) => format!("reserved {n}"),
            PortabilityIssue::CaseFoldCollision(ns) => format!("fold {ns:?}"),
        })
        .collect();
    assert_eq!(
        described,
        vec![
            "reserved Con".to_string(),
            "reserved aux".to_string(),
            "fold [\"AA\", \"aa\"]".to_string()
        ]
    );
    assert!(!at_soft_cap(&entries));
    let many: Vec<RawEntry> = (1..=3001u64)
        .map(|n| raw(&format!("f{n}"), true, false, 0))
        .collect();
    let many = classify_dir(many);
    assert!(at_soft_cap(&many));
    assert!(matches!(portability_issues(&many)[0], PortabilityIssue::EntryCap));
    assert_eq!(to_ascii_lowercase(&"AbÉ".to_string()), "abÉ");
}

#[test]
fn labels_and_filters() {
    assert_eq!(class_label(&Class::Sidecar), "sidecar");
    assert_eq!(class_label(&Class::CoveredFile { ordinal: 3 }), "file ordinal=3");
    assert_eq!(class_label(&Class::CoveredDir { ordinal: 11 }), "dir ordinal=11");
    assert_eq!(
        class_label(&Class::ExtraFile { rule: ExtraRule::NonAlnum }),
        "extra_file rule=non-alnum"
    );
    assert_eq!(
        class_label(&Class::ExtraOther { rule: ExtraRule::UnsupportedType }),
        "extra_other rule=unsupported-type"
    );
    assert_eq!(rule_label(&ExtraRule::TenMissingPredecessors), "ten-missing-predecessors");
    assert_eq!(kind_name(Kind::Dir), "dir");
    assert_eq!(kinds(None), vec![Kind::File, Kind::Dir]);
    assert_eq!(kinds(Some(Kind::Dir)), vec![Kind::Dir]);
    assert!(filtered(&Class::ExtraDir { rule: ExtraRule::NonAlnum }, Some(Kind::Dir)));
    assert!(!filtered(&Class::Sidecar, Some(Kind::File)));
    assert!(filtered(&Class::Sidecar, None));
}

#[test]
fn code_verb_decisions() {
    assert_eq!(code_arg("aa", None, false, false), Ok("27".to_string()));
    assert_eq!(code_arg("27", Some(Kind::Dir), false, false), Ok("Q".to_string()));
    assert_eq!(code_arg("_R", Some(Kind::Dir), false, false), Ok("28".to_string()));
    assert_eq!(code_arg("27", None, false, false), Ok("Q".to_string()));
    assert_eq!(
        code_arg("0", Some(Kind::File), false, false),
        Err(CodeError::Codec(CodecError::Zero))
    );
    assert_eq!(
        code_arg("x1", Some(Kind::File), true, false),
        Err(CodeError::Number(IntErrorKind::InvalidDigit))
    );
    assert_eq!(
        code_arg("12", Some(Kind::File), false, true),
        Err(CodeError::Codec(CodecError::InvalidDigit('1')))
    );
    assert!(encodes("123", false, false));
    assert!(!encodes("12a", false, false));
    assert!(encodes("abc", true, false));
    assert!(validate_arg("aux", None));
    assert!(validate_arg("_R", Some(Kind::Dir)));
    assert!(validate_arg("R", Some(Kind::Dir)));
    assert!(!validate_arg("_R", Some(Kind::File)));
    assert!(!validate_arg("aaaa", Some(Kind::File)));
}

#[test]
fn stable_sort_keeps_ties_in_order() {
    let v = vec![(2u64, 'a'), (1, 'b'), (2, 'c'), (1, 'd')];
    assert_eq!(stable_sort_by_key(v), vec![(1, 'b'), (1, 'd'), (2, 'a'), (2, 'c')]);
    let w = vec![
        ("b".to_string(), 1),
        ("a".to_string(), 2),
        ("B".to_string(), 3),
        ("a".to_string(), 4),
    ];
    assert_eq!(
        stable_sort_by_key(w),
        vec![
            ("B".to_string(), 3),
            ("a".to_string(), 2),
            ("a".to_string(), 4),
            ("b".to_string(), 1)
        ]
    );
}

#[test]
fn one_deletion_means_the_entry_would_turn_extra() {
    let entries = files(&["u", "p", "j", "a"]);
    let rows = fragile(&entries, Kind::File);
    assert!(rows.iter().any(|r| r.0 == "p" && r.3));
    // deleting the single present predecessor of `p` (ordinal 10, `j`) makes it extra
    let after = files(&["u", "p", "a"]);
    assert_eq!(
        class_of(&after, "p"),
        Class::ExtraFile { rule: ExtraRule::TenMissingPredecessors }
    );
    // an entry with all ten predecessor slots vacant is extra already
    let lone = files(&["l"]);
    assert_eq!(fragile(&lone, Kind::File), Vec::new());
    assert_eq!(
        class_of(&lone, "l"),
        Class::ExtraFile { rule: ExtraRule::TenMissingPredecessors }
    );
}

#[test]
fn compaction_yields_a_dense_prefix() {
    let names = ["a", "c", "f", "k", "p"];
    let entries = files(&names);
    let moves = compact_moves(&entries, Kind::File);
    let renamed: Vec<String> = names
        .iter()
        .map(|n| {
            moves
                .iter()
                .find(|(old, _)| old == n)
                .map(|(_, new)| new.clone())
                .unwrap_or_else(|| n.to_string())
        })
        .collect();
    assert_eq!(renamed, vec!["a", "b", "c", "d", "e"]);
    let targets: HashSet<&String> = moves.iter().map(|(_, new)| new).collect();
    assert_eq!(targets.len(), moves.len());
    let refs: Vec<&str> = renamed.iter().map(|s| s.as_str()).collect();
    let after = files(&refs);
    assert_eq!(derive_local(&after).missing_files, 0);
    assert!(gaps(&after, Kind::File).is_empty());
}

#[test]
fn covered_entries_decode_to_their_ordinals() {
    let mut raws: Vec<RawEntry> = (1..=40u64)
        .map(|n| raw(&storage_name(n, Kind::Dir).unwrap(), false, true, 0))
        .collect();
    raws.extend((1..=40u64).map(|n| raw(&storage_name(n * 3, Kind::File).unwrap(), true, false, 1)));
    for e in classify_dir(raws) {
        match e.class {
            Class::CoveredFile { ordinal } => {
                assert!(valid_index(&e.name, Kind::File));
                assert_eq!(decode(&e.name, Kind::File).unwrap(), ordinal);
            }
            Class::CoveredDir { ordinal } => {
                assert!(sdt_core::is_canonical_dir_name(&e.name));
                assert_eq!(decode(&e.name, Kind::Dir).unwrap(), ordinal);
            }
            other => panic!("{} classified {other:?}", e.name),
        }
    }
}

#[test]
fn encode_is_increasing_in_shortlex_order() {
    for kind in [Kind::File, Kind::Dir] {
        let mut prev = encode(1, kind).unwrap();
        for n in 2..=kind.capacity() + 40 {
            let next = encode(n, kind).unwrap();
            assert!(prev.len() < next.len() || (prev.len() == next.len() && prev < next));
            prev = next;
        }
    }
    assert_eq!(encode(36, Kind::Dir).unwrap(), "Z");
    assert_eq!(encode(37, Kind::Dir).unwrap(), "00");
}

#[test]
fn derive_local_ignores_entry_order() {
    let names = ["c", "a", "README", "q", "b"];
    let forward = files(&names);
    let mut raws: Vec<RawEntry> = names.iter().map(|n| raw(n, true, false, 1)).collect();
    raws.push(raw("0", false, true, 0));
    raws.push(raw("_A", false, true, 0));
    let mut reversed: Vec<RawEntry> = names.iter().rev().map(|n| raw(n, true, false, 1)).collect();
    reversed.insert(0, raw("_A", false, true, 0));
    reversed.insert(1, raw("0", false, true, 0));
    let a = classify_dir(raws);
    let b = classify_dir(reversed);
    let mut shuffled = a.clone();
    shuffled.reverse();
    assert_eq!(derive_local(&a), derive_local(&shuffled));
    assert_eq!(derive_local(&a), derive_local(&b));
    assert_eq!(derive_local(&forward).last_file, "c");
}

#[test]
fn classified_covered_ordinals_are_positive_and_distinct() {
    let entries = classify_dir(vec![
        raw("b", true, false, 1),
        raw("a", true, false, 1),
        raw("0", false, true, 0),
        raw("_A", false, true, 0),
        raw("A", false, true, 0),
    ]);
    let mut seen_files = HashSet::new();
    let mut seen_dirs = HashSet::new();
    for e in &entries {
        match e.class {
            Class::CoveredFile { ordinal } => {
                assert!(ordinal >= 1);
                assert!(seen_files.insert(ordinal));
            }
            Class::CoveredDir { ordinal } => {
                assert!(ordinal >= 1);
                assert!(seen_dirs.insert(ordinal));
            }
            _ => {}
        }
    }
    assert_eq!(seen_files, HashSet::from([1, 2]));
    assert_eq!(seen_dirs, HashSet::from([1, 11]));
    assert_eq!(class_of(&entries, "A"), Class::ExtraDir { rule: ExtraRule::NonCanonicalDirForm });
    // with distinct positive ordinals the gap list has `missing_*` entries
    let local = derive_local(&entries);
    assert_eq!(gaps(&entries, Kind::Dir).len() as u64, local.missing_dirs);
    assert_eq!(local.missing_dirs, 9);
}

#[test]
fn fragile_counts_only_real_predecessor_slots() {
    let rows = fragile(&files(&["a"]), Kind::File);
    assert_eq!(rows, vec![("a".to_string(), 1, 0, false)]);
    let rows = fragile(&files(&["a", "c"]), Kind::File);
    assert_eq!(
        rows,
        vec![("a".to_string(), 1, 0, false), ("c".to_string(), 3, 1, false)]
    );
    let rows = fragile(&files(&["a", "k"]), Kind::File);
    assert_eq!(
        rows,
        vec![("a".to_string(), 1, 0, false), ("k".to_string(), 11, 9, true)]
    );
}

#[test]
fn check_sidecar_findings() {
    let entries = files(&["a", "c"]);
    let derived = derive_local(&entries);
    assert_eq!(check_sidecar(None, Some(&derived), true), Some(CheckFinding::Missing));
    assert_eq!(check_sidecar(None, Some(&derived), false), None);
    let text = derived.serialize();
    assert_eq!(check_sidecar(Some(&text), Some(&derived), true), None);
    assert_eq!(check_sidecar(Some(&text), None, true), None);
    let other = derive_local(&files(&["a"]));
    assert_eq!(
        check_sidecar(Some(&other.serialize()), Some(&derived), false),
        Some(CheckFinding::Drift)
    );
    assert_eq!(check_sidecar(Some(&other.serialize()), None, false), None);
    assert_eq!(
        check_sidecar(Some("a\n"), None, false),
        Some(CheckFinding::Malformed("sidecar has 1 lines, expected 9".to_string()))
    );
    assert_eq!(
        check_sidecar(Some(""), Some(&derived), false),
        Some(CheckFinding::Malformed("sidecar must be newline-terminated".to_string()))
    );
}

#[test]
fn manifest_line_reads_back() {
    let line = manifest_line("a/b", "src/sub/leaf.txt");
    assert_eq!(line, "a/b\tsrc/sub/leaf.txt\n");
    let read = line.lines().next().unwrap();
    assert_eq!(
        split_manifest_line(read),
        Some(("a/b".to_string(), "src/sub/leaf.txt".to_string()))
    );
    // an origin holding a tab still reads back whole: the split is at the first tab
    let line = manifest_line("c", "x\ty");
    assert_eq!(
        split_manifest_line(line.lines().next().unwrap()),
        Some(("c".to_string(), "x\ty".to_string()))
    );
}

#[test]
fn a_sidecar_entry_changes_no_class_or_value() {
    let plain = vec![raw("a", true, false, 3), raw("k", true, false, 5), raw("0", false, true, 0)];
    let mut with_sidecar = vec![raw(".0", true, false, 99)];
    with_sidecar.extend(vec![raw("a", true, false, 3), raw("k", true, false, 5), raw("0", false, true, 0)]);
    let a = classify_dir(plain);
    let b = classify_dir(with_sidecar);
    assert_eq!(class_of(&b, ".0"), Class::Sidecar);
    for e in &a {
        assert_eq!(class_of(&b, &e.name), e.class);
    }
    assert_eq!(derive_local(&a), derive_local(&b));
    let child = derive_local(&classify_dir(Vec::new()));
    assert_eq!(
        derive_subtree(&a, &vec![child.clone()]),
        derive_subtree(&b, &vec![child])
    );
}
