use theus_core::paths::{parse_path_segments, usize_to_string, Seg};
use theus_core::registry::{format_alloc_record, parse_alloc_record, partition_records, AllocRecord};
use theus_core::value::Val;
use theus_core::errors::EngineError;

fn key(s: &str) -> Seg {
    Seg::Key(s.to_string())
}

#[test]
fn test_parse_path_segments() {
    let segs = parse_path_segments("domain.users[0].name");
    assert_eq!(segs.len(), 4);
}

#[test]
fn parse_segments_shapes() {
    let segs = parse_path_segments("domain.users[0].name");
    assert!(matches!(&segs[0], Seg::Key(k) if k == "domain"));
    assert!(matches!(&segs[1], Seg::Key(k) if k == "users"));
    assert!(matches!(&segs[2], Seg::Index(0)));
    assert!(matches!(&segs[3], Seg::Key(k) if k == "name"));
}

#[test]
fn parse_bracketed_string_key() {
    let segs = parse_path_segments("data['key']");
    assert_eq!(segs.len(), 2);
    assert!(matches!(&segs[1], Seg::Key(k) if k == "key"));
}

#[test]
fn parse_plain_numeric_segment_is_key() {
    let segs = parse_path_segments("items.0");
    assert_eq!(segs.len(), 2);
    assert!(matches!(&segs[1], Seg::Key(k) if k == "0"));
}

#[test]
fn parse_empty_and_single() {
    assert_eq!(parse_path_segments("").len(), 0);
    let segs = parse_path_segments("root");
    assert_eq!(segs.len(), 1);
    assert!(matches!(&segs[0], Seg::Key(k) if k == "root"));
}

#[test]
fn parse_huge_bracket_number_falls_back_to_key() {
    let segs = parse_path_segments("a[99999999999999999999999999]");
    assert_eq!(segs.len(), 2);
    assert!(matches!(&segs[1], Seg::Key(k) if k == "99999999999999999999999999"));
}

#[test]
fn decimal_rendering() {
    assert_eq!(usize_to_string(0), "0");
    assert_eq!(usize_to_string(7), "7");
    assert_eq!(usize_to_string(40960), "40960");
}

#[test]
fn registry_record_round_trip() {
    let rec = AllocRecord {
        name: "theus_shm_1".to_string(),
        pid: 4242,
        session: "sess-a".to_string(),
        size: 65536,
    };
    let line = format_alloc_record(&rec);
    assert_eq!(
        line,
        "{\"name\":\"theus_shm_1\",\"pid\":4242,\"session\":\"sess-a\",\"size\":65536,\"ts\":0.0}"
    );
    let back = parse_alloc_record(&line).expect("line should parse");
    assert_eq!(back.name, "theus_shm_1");
    assert_eq!(back.pid, 4242);
    assert_eq!(back.session, "sess-a");
    assert_eq!(back.size, 65536);
}

#[test]
fn registry_parse_rejects_garbage() {
    assert!(parse_alloc_record("not json at all").is_none());
    assert!(parse_alloc_record("{\"name\":\"x\"").is_none());
}

#[test]
fn registry_parse_accepts_any_field_order_and_unknown_fields() {
    let line = "{\"ts\":12.5,\"size\":64,\"flavour\":\"blue\",\"session\":\"s9\",\"pid\":8,\"name\":\"seg_z\"}";
    let rec = parse_alloc_record(line).expect("reordered record parses");
    assert_eq!(rec.name, "seg_z");
    assert_eq!(rec.pid, 8);
    assert_eq!(rec.session, "s9");
    assert_eq!(rec.size, 64);
}

#[test]
fn registry_partition_keeps_alive_drops_dead() {
    let recs = vec![
        AllocRecord { name: "a".to_string(), pid: 10, session: "s".to_string(), size: 1 },
        AllocRecord { name: "b".to_string(), pid: 20, session: "s".to_string(), size: 2 },
        AllocRecord { name: "c".to_string(), pid: 30, session: "s".to_string(), size: 3 },
    ];
    let alive = vec![20u64];
    let (keep, gone) = partition_records(recs, &alive, 30);
    let kept: Vec<String> = keep.iter().map(|r| r.name.clone()).collect();
    assert_eq!(kept, vec!["b".to_string(), "c".to_string()]);
    assert_eq!(gone, vec!["a".to_string()]);
}

#[test]
fn deep_eq_and_copy() {
    let a = Val::Dict(vec![
        ("x".to_string(), Val::Int(1)),
        ("y".to_string(), Val::List(vec![Val::Str("s".to_string()), Val::Null])),
    ]);
    let b = a.deep_copy();
    assert!(a.deep_eq(&b));
    let c = Val::Dict(vec![("x".to_string(), Val::Int(2))]);
    assert!(!a.deep_eq(&c));
}

#[test]
fn error_wire_names() {
    assert_eq!(EngineError::Context.wire_name(), "ContextError");
    assert_eq!(EngineError::WriteTimeout.wire_name(), "WriteTimeoutError");
    assert_eq!(EngineError::SchemaViolation.wire_name(), "SchemaViolationError");
    assert_eq!(EngineError::PermissionDenied.wire_name(), "PermissionDenied");
    assert_eq!(EngineError::PureProcessWrite.wire_name(), "PureProcessWrite");
    assert_eq!(EngineError::NoActiveTransaction.wire_name(), "NoActiveTransaction");
    assert_eq!(EngineError::DeepCopyFailed.wire_name(), "DeepCopyFailed");
    assert_eq!(EngineError::SystemBusy.wire_name(), "SystemBusy");
    assert_eq!(
        EngineError::StrictCasMismatch { expected: 0, found: 1 }.wire_name(),
        "StrictCasMismatch"
    );
    assert_eq!(EngineError::CasConflict { expected: 0, found: 1 }.wire_name(), "CasConflict");
    assert_eq!(EngineError::SecurityViolation.wire_name(), "SecurityViolation");
}

#[test]
fn set_nested_value_creates_and_extends() {
    // on a fresh tree the intermediate levels are created as dicts, so a
    // trailing index lands as a numeric string key
    let mut root = Val::Dict(vec![]);
    let segs = parse_path_segments("a.b[2]");
    theus_core::value::set_nested_value(&mut root, &segs, Val::Int(9)).expect("dict target takes a numeric key");
    let numeric = parse_path_segments("a.b.2");
    let got0 = root.get_at_path(&numeric, 0).expect("numeric key present");
    assert!(got0.deep_eq(&Val::Int(9)));
    // an index before the end of the path cannot cross a dict
    let deeper = parse_path_segments("a.b[0].c");
    theus_core::value::set_nested_value(&mut root, &deeper, Val::Int(1)).expect_err("index step on a dict");

    let mut root2 = Val::Dict(vec![("a".to_string(), Val::Dict(vec![("b".to_string(), Val::List(vec![]))]))]);
    theus_core::value::set_nested_value(&mut root2, &segs, Val::Int(9)).expect("list is padded");
    let got = root2.get_at_path(&segs, 0).expect("present");
    assert!(got.deep_eq(&Val::Int(9)));
    let b_segs = vec![key("a"), key("b")];
    let b = root2.get_at_path(&b_segs, 0).unwrap();
    assert!(b.deep_eq(&Val::List(vec![Val::Null, Val::Null, Val::Int(9)])));
}
