use theus_core::engine::{TheusEngine, OutboxMsg, Schema, SchemaKind};
use theus_core::state::State;
use theus_core::value::Val;
use theus_core::paths::parse_path_segments;
use theus_core::errors::EngineError;
use theus_core::conflict::RetryDecision;
use theus_core::guards::{PolicyInterner, ContextGuard};
use theus_core::proxy::ReadOutcome;
use theus_core::zones::OverrideTable;

fn dict(pairs: Vec<(&str, Val)>) -> Val {
    Val::Dict(pairs.into_iter().map(|(k, v)| (k.to_string(), v)).collect())
}

fn num(n: i64) -> Val {
    Val::Int(n)
}

fn s(v: &str) -> Val {
    Val::Str(v.to_string())
}

fn at<'a>(root: &'a Val, path: &str) -> Option<&'a Val> {
    let segs = parse_path_segments(path);
    root.get_at_path(&segs, 0)
}

fn engine_with(data: Val) -> TheusEngine {
    let mut engine = TheusEngine::new();
    let st = State::new(data, Val::Dict(vec![]), Vec::new(), 0, 1000);
    engine.commit_state(st);
    engine
}

#[test]
fn smart_cas_allows_disjoint_writes() {
    let mut engine = engine_with(dict(vec![(
        "domain",
        dict(vec![("counter", num(0)), ("name", s("a"))]),
    )]));
    let delta_a = dict(vec![("domain", dict(vec![("counter", num(1))]))]);
    engine
        .compare_and_swap(0, Some(&delta_a), None, None, None)
        .expect("writer A merges");
    assert_eq!(engine.state().version, 1);
    let delta_b = dict(vec![("domain", dict(vec![("name", s("b"))]))]);
    engine
        .compare_and_swap(0, Some(&delta_b), None, None, None)
        .expect("writer B touches a disjoint field");
    assert_eq!(engine.state().version, 2);
    let data = &engine.state().data;
    assert!(at(data, "domain.counter").unwrap().deep_eq(&num(1)));
    assert!(at(data, "domain.name").unwrap().deep_eq(&s("b")));
}

#[test]
fn smart_cas_rejects_touched_field() {
    let mut engine = engine_with(dict(vec![("domain", dict(vec![("counter", num(0))]))]));
    let delta_a = dict(vec![("domain", dict(vec![("counter", num(1))]))]);
    engine.compare_and_swap(0, Some(&delta_a), None, None, None).unwrap();
    let delta_b = dict(vec![("domain", dict(vec![("counter", num(7))]))]);
    let r = engine.compare_and_swap(0, Some(&delta_b), None, None, None);
    assert_eq!(r, Err(EngineError::CasConflict { expected: 0, found: 1 }));
    assert_eq!(engine.state().version, 1);
}

#[test]
fn strict_cas_rejects_any_version_race() {
    let mut engine = engine_with(dict(vec![(
        "domain",
        dict(vec![("counter", num(0)), ("name", s("a"))]),
    )]));
    engine.set_strict_cas(true);
    let delta_a = dict(vec![("domain", dict(vec![("counter", num(1))]))]);
    engine.compare_and_swap(0, Some(&delta_a), None, None, None).unwrap();
    let delta_b = dict(vec![("domain", dict(vec![("name", s("b"))]))]);
    let r = engine.compare_and_swap(0, Some(&delta_b), None, None, None);
    assert_eq!(r, Err(EngineError::StrictCasMismatch { expected: 0, found: 1 }));
}

#[test]
fn cas_schema_gatekeeping() {
    let mut engine = engine_with(dict(vec![("domain", dict(vec![("counter", num(0))]))]));
    engine.set_schema(Schema::new(vec![
        ("domain".to_string(), SchemaKind::Dict),
        ("flag".to_string(), SchemaKind::Bool),
    ]));
    // the merged state still has no `flag`, so nothing is swapped
    let delta = dict(vec![("domain", dict(vec![("counter", num(1))]))]);
    let r = engine.compare_and_swap(0, Some(&delta), None, None, None);
    assert_eq!(r, Err(EngineError::SchemaViolation));
    assert_eq!(engine.state().version, 0);
    // adding the flag satisfies the schema
    let delta2 = dict(vec![("domain", dict(vec![("counter", num(1))])), ("flag", Val::Bool(true))]);
    engine.compare_and_swap(0, Some(&delta2), None, None, None).unwrap();
    assert_eq!(engine.state().version, 1);
}

#[test]
fn conflict_decisions_and_priority_ticket() {
    let mut engine = TheusEngine::new();
    for _ in 0..5 {
        assert_eq!(engine.report_conflict("noisy".to_string()), RetryDecision::Retry);
    }
    assert_eq!(engine.report_conflict("noisy".to_string()), RetryDecision::Backoff(50));
    assert_eq!(engine.report_conflict("noisy".to_string()), RetryDecision::Backoff(50));
    assert_eq!(engine.report_conflict("noisy".to_string()), RetryDecision::Abort);
    // while the storm is active only the ticket holder may write
    let other = "other".to_string();
    let r = engine.compare_and_swap(0, None, None, None, Some(&other));
    assert_eq!(r, Err(EngineError::SystemBusy));
    let noisy = "noisy".to_string();
    engine.compare_and_swap(0, None, None, None, Some(&noisy)).expect("ticket holder passes");
    engine.report_success("noisy".to_string());
    engine.compare_and_swap(1, None, None, None, Some(&other)).expect("ticket released");
}

#[test]
fn transaction_update_deep_merges_pending() {
    let mut engine = TheusEngine::new();
    let mut tx = engine.transaction(5000);
    tx.update(Some(&dict(vec![("a", dict(vec![("b", num(1))]))])), None, None).unwrap();
    tx.update(Some(&dict(vec![("a", dict(vec![("c", num(2))]))])), None, None).unwrap();
    let pending = tx.build_pending_from_deltas().unwrap();
    assert!(pending.deep_eq(&dict(vec![(
        "a",
        dict(vec![("b", num(1)), ("c", num(2))]),
    )])));
    // rejecting a non-dict delta is a usage error with no side effects
    let r = tx.update(Some(&num(3)), None, None);
    assert_eq!(r, Err(EngineError::Context));
}

#[test]
fn delta_log_keeps_recording_order() {
    let mut engine = TheusEngine::new();
    let mut tx = engine.transaction(5000);
    tx.log_delta("b.long.path".to_string(), None, Some(num(1)));
    tx.log_delta("a".to_string(), None, Some(num(2)));
    tx.log_delta("c.mid".to_string(), None, Some(num(3)));
    let paths = tx.get_delta_log();
    assert_eq!(paths, vec!["b.long.path".to_string(), "a".to_string(), "c.mid".to_string()]);
}

#[test]
fn commit_applies_shortest_path_first() {
    let mut engine = TheusEngine::new();
    let mut tx = engine.transaction(5000);
    // the child write is recorded first but must win over the parent write
    tx.log_delta("domain.items".to_string(), None, Some(Val::List(vec![num(7)])));
    tx.log_delta("domain".to_string(), None, Some(dict(vec![("items", Val::List(vec![]))])));
    tx.commit().unwrap();
    let items = at(&tx.pending_data, "domain.items").unwrap().deep_copy();
    assert!(items.deep_eq(&Val::List(vec![num(7)])));
}

#[test]
fn close_commits_and_bumps_version() {
    let mut engine = engine_with(dict(vec![("domain", dict(vec![("counter", num(0))]))]));
    let mut tx = engine.transaction(5000);
    tx.enter(0);
    tx.update(Some(&dict(vec![("domain", dict(vec![("counter", num(9))]))])), None, None).unwrap();
    tx.close(&mut engine, 1, false).expect("clean close");
    assert_eq!(engine.state().version, 1);
    assert!(at(&engine.state().data, "domain.counter").unwrap().deep_eq(&num(9)));
}

#[test]
fn timeout_discards_everything() {
    let mut engine = engine_with(dict(vec![("domain", dict(vec![("counter", num(0))]))]));
    let mut tx = engine.transaction(10);
    tx.enter(0);
    tx.update(Some(&dict(vec![("domain", dict(vec![("counter", num(5))]))])), None, None).unwrap();
    tx.outbox_add(OutboxMsg { topic: "t".to_string(), payload: num(1) });
    let r = tx.close(&mut engine, 50, false);
    assert_eq!(r, Err(EngineError::WriteTimeout));
    assert_eq!(engine.state().version, 0);
    assert!(at(&engine.state().data, "domain.counter").unwrap().deep_eq(&num(0)));
    assert_eq!(engine.outbox.len(), 0);
}

#[test]
fn pending_error_discards_everything() {
    let mut engine = engine_with(dict(vec![("domain", dict(vec![("counter", num(0))]))]));
    let outbox_before = engine.outbox.len();
    let mut tx = engine.transaction(5000);
    tx.enter(0);
    tx.update(Some(&dict(vec![("domain", dict(vec![("counter", num(5))]))])), None, None).unwrap();
    tx.outbox_add(OutboxMsg { topic: "t".to_string(), payload: num(1) });
    tx.close(&mut engine, 1, true).expect("a pending error closes quietly");
    assert_eq!(engine.state().version, 0);
    assert_eq!(engine.outbox.len(), outbox_before);
}

#[test]
fn outbox_flushes_in_order_only_on_success() {
    let mut engine = TheusEngine::new();
    let mut tx = engine.transaction(5000);
    tx.enter(0);
    tx.outbox_add(OutboxMsg { topic: "first".to_string(), payload: num(1) });
    tx.outbox_add(OutboxMsg { topic: "second".to_string(), payload: num(2) });
    assert_eq!(engine.outbox.len(), 0);
    tx.close(&mut engine, 1, false).unwrap();
    assert_eq!(engine.outbox.len(), 2);
    assert_eq!(engine.outbox.messages[0].topic, "first");
    assert_eq!(engine.outbox.messages[1].topic, "second");
    // without a worker, processing leaves the queue alone
    let handed = engine.process_outbox();
    assert_eq!(handed.len(), 0);
    assert_eq!(engine.outbox.len(), 2);
    engine.attach_worker();
    let handed = engine.process_outbox();
    assert_eq!(handed.len(), 2);
    assert_eq!(engine.outbox.len(), 0);
}

#[test]
fn signal_appends_under_cap() {
    let st = State::new(Val::Dict(vec![]), Val::Dict(vec![]), Vec::new(), 0, 3);
    let sig = vec![num(1), num(2), num(3), num(4)];
    let ns = st.update(None, None, Some(&sig)).unwrap();
    assert_eq!(ns.signal.len(), 3);
    assert!(ns.signal[0].deep_eq(&num(2)));
    assert!(ns.signal[2].deep_eq(&num(4)));
}

#[test]
fn shadow_inference_detects_in_place_list_append() {
    let mut engine = engine_with(dict(vec![(
        "domain",
        dict(vec![("items", Val::List(vec![num(1), num(2)]))]),
    )]));
    let mut tx = engine.transaction(5000);
    tx.enter(0);
    let mut interner = PolicyInterner::new();
    let guard = ContextGuard::new_internal(
        &mut interner,
        vec!["domain".to_string()],
        vec!["domain".to_string()],
        String::new(),
        true,
        false,
        false,
    )
    .unwrap();
    let ov = OverrideTable::new();
    let state_snapshot = State::new(
        engine.state().data.deep_copy(),
        Val::Dict(vec![]),
        Vec::new(),
        engine.state().version,
        1000,
    );
    let domain_proxy = match guard.get_attr(&state_snapshot, &mut tx, &ov, &"domain".to_string()).unwrap() {
        ReadOutcome::Child(p) => p,
        ReadOutcome::Value(_) => panic!("domain is a container"),
    };
    let items_proxy = match domain_proxy.get_attr(&tx, &ov, &"items".to_string()).unwrap() {
        ReadOutcome::Child(p) => p,
        ReadOutcome::Value(_) => panic!("items is a container"),
    };
    items_proxy.append(&mut tx, num(7)).unwrap();
    tx.close(&mut engine, 1, false).unwrap();
    let items = at(&engine.state().data, "domain.items").unwrap();
    assert!(items.deep_eq(&Val::List(vec![num(1), num(2), num(7)])));
    let log = tx.get_delta_log();
    let hits = log.iter().filter(|p| p.as_str() == "domain.items").count();
    assert_eq!(hits, 1);
}

#[test]
fn constant_cannot_be_mutated_even_by_admin() {
    let mut engine = engine_with(dict(vec![("domain", dict(vec![("const_k", num(1))]))]));
    let mut tx = engine.transaction(5000);
    tx.enter(0);
    let mut interner = PolicyInterner::new();
    let guard = ContextGuard::new_internal(
        &mut interner,
        vec!["domain".to_string()],
        vec!["domain".to_string()],
        String::new(),
        true,
        true,
        false,
    )
    .unwrap();
    let ov = OverrideTable::new();
    let snapshot = State::new(
        engine.state().data.deep_copy(),
        Val::Dict(vec![]),
        Vec::new(),
        0,
        1000,
    );
    let domain_proxy = match guard.get_attr(&snapshot, &mut tx, &ov, &"domain".to_string()).unwrap() {
        ReadOutcome::Child(p) => p,
        ReadOutcome::Value(_) => panic!("domain is a container"),
    };
    let r = domain_proxy.set_attr(&mut tx, &ov, &"const_k".to_string(), num(2));
    assert_eq!(r, Err(EngineError::PermissionDenied));
    tx.close(&mut engine, 1, false).unwrap();
    assert!(at(&engine.state().data, "domain.const_k").unwrap().deep_eq(&num(1)));
}

#[test]
fn private_hidden_from_non_admin_visible_to_admin() {
    let ov = OverrideTable::new();
    let engine = engine_with(dict(vec![("internal_x", num(42))]));
    let mut interner = PolicyInterner::new();
    let ordinary = ContextGuard::new_internal(
        &mut interner,
        vec!["internal_x".to_string()],
        vec![],
        String::new(),
        true,
        false,
        false,
    )
    .unwrap();
    let admin = ContextGuard::new_internal(
        &mut interner,
        vec!["internal_x".to_string()],
        vec![],
        String::new(),
        true,
        true,
        false,
    )
    .unwrap();
    let mut tx = engine.transaction(5000);
    let got = ordinary.get_attr(engine.state(), &mut tx, &ov, &"internal_x".to_string()).unwrap();
    match got {
        ReadOutcome::Value(v) => assert!(v.deep_eq(&Val::Null)),
        ReadOutcome::Child(_) => panic!("a hidden value is a silent null"),
    }
    let got_admin = admin.get_attr(engine.state(), &mut tx, &ov, &"internal_x".to_string()).unwrap();
    match got_admin {
        ReadOutcome::Value(v) => assert!(v.deep_eq(&num(42))),
        ReadOutcome::Child(_) => panic!("a scalar comes back raw"),
    }
}

#[test]
fn read_only_proxy_refuses_writes() {
    let engine = engine_with(dict(vec![("domain", dict(vec![("x", num(1))]))]));
    let mut tx = engine.transaction(5000);
    let mut interner = PolicyInterner::new();
    // domain is readable but not writable for this process
    let guard = ContextGuard::new_internal(
        &mut interner,
        vec!["domain".to_string()],
        vec![],
        String::new(),
        true,
        false,
        false,
    )
    .unwrap();
    let ov = OverrideTable::new();
    let p = match guard.get_attr(engine.state(), &mut tx, &ov, &"domain".to_string()).unwrap() {
        ReadOutcome::Child(p) => p,
        ReadOutcome::Value(_) => panic!("domain is a container"),
    };
    assert!(p.read_only);
    let r = p.set_attr(&mut tx, &ov, &"x".to_string(), num(2));
    assert_eq!(r, Err(EngineError::PureProcessWrite));
}

#[test]
fn proxy_dict_operations() {
    let engine = engine_with(dict(vec![("domain", dict(vec![("a", num(1)), ("b", num(2))]))]));
    let mut tx = engine.transaction(5000);
    let mut interner = PolicyInterner::new();
    let guard = ContextGuard::new_internal(
        &mut interner,
        vec!["domain".to_string()],
        vec!["domain".to_string()],
        String::new(),
        true,
        false,
        false,
    )
    .unwrap();
    let ov = OverrideTable::new();
    let p = match guard.get_attr(engine.state(), &mut tx, &ov, &"domain".to_string()).unwrap() {
        ReadOutcome::Child(p) => p,
        ReadOutcome::Value(_) => panic!("domain is a container"),
    };
    assert_eq!(p.len_of(&tx).unwrap(), 2);
    assert_eq!(p.keys(&tx).unwrap(), vec!["a".to_string(), "b".to_string()]);
    assert!(p.get(&tx, &"a".to_string(), None).unwrap().deep_eq(&num(1)));
    assert!(p.get(&tx, &"zz".to_string(), Some(num(9))).unwrap().deep_eq(&num(9)));
    assert!(p.contains(&tx, &s("a")).unwrap());
    assert!(!p.contains(&tx, &s("zz")).unwrap());
    p.update(&mut tx, &dict(vec![("b", num(20)), ("c", num(3))])).unwrap();
    assert!(p.get(&tx, &"b".to_string(), None).unwrap().deep_eq(&num(20)));
    let dv = p.setdefault(&mut tx, &"d".to_string(), num(4)).unwrap();
    assert!(dv.deep_eq(&num(4)));
    let popped = p.pop(&mut tx, Some(&theus_core::paths::Seg::Key("a".to_string())), None).unwrap();
    assert!(popped.deep_eq(&num(1)));
    let (k, v) = p.popitem(&mut tx).unwrap();
    assert_eq!(k, "d");
    assert!(v.deep_eq(&num(4)));
    assert!(p.eq_value(&tx, &dict(vec![("b", num(20)), ("c", num(3))])).unwrap());
}
