use theus_core::engine::TheusEngine;
use theus_core::state::State;
use theus_core::value::Val;
use theus_core::paths::{parse_path_segments, Seg};
use theus_core::errors::EngineError;
use theus_core::guards::{PolicyInterner, ContextGuard};
use theus_core::proxy::ReadOutcome;
use theus_core::zones::OverrideTable;
use theus_core::registry::parse_alloc_record;

fn dict(pairs: Vec<(&str, Val)>) -> Val {
    Val::Dict(pairs.into_iter().map(|(k, v)| (k.to_string(), v)).collect())
}

fn num(n: i64) -> Val {
    Val::Int(n)
}

fn at<'a>(root: &'a Val, path: &str) -> Option<&'a Val> {
    let segs = parse_path_segments(path);
    root.get_at_path(&segs, 0)
}

fn engine_with(data: Val) -> TheusEngine {
    let mut engine = TheusEngine::new();
    let st = State::new(data, Val::Dict(vec![]), Vec::new(), 0, 1000);
    engine.commit_state(st);
    engine
}

fn list_proxy(
    engine: &TheusEngine,
    tx: &mut theus_core::transaction::Transaction,
) -> theus_core::proxy::SupervisorProxy {
    let mut interner = PolicyInterner::new();
    let guard = ContextGuard::new_internal(
        &mut interner,
        vec!["domain".to_string()],
        vec!["domain".to_string()],
        String::new(),
        true,
        false,
        false,
    )
    .unwrap();
    let ov = OverrideTable::new();
    let domain = match guard.get_attr(engine.state(), tx, &ov, &"domain".to_string()).unwrap() {
        ReadOutcome::Child(p) => p,
        ReadOutcome::Value(_) => panic!("domain is a container"),
    };
    match domain.get_attr(tx, &ov, &"items".to_string()).unwrap() {
        ReadOutcome::Child(p) => p,
        ReadOutcome::Value(_) => panic!("items is a container"),
    }
}

#[test]
fn proxy_list_operations() {
    let engine = engine_with(dict(vec![(
        "domain",
        dict(vec![("items", Val::List(vec![num(3), num(1)]))]),
    )]));
    let mut tx = engine.transaction(5000);
    tx.enter(0);
    let items = list_proxy(&engine, &mut tx);

    items.append(&mut tx, num(2)).unwrap();
    items.extend(&mut tx, &Val::List(vec![num(4), num(5)])).unwrap();
    items.insert(&mut tx, 0, num(0)).unwrap();
    items.remove(&mut tx, &num(1)).unwrap();
    // removing a value that is not there is a usage error
    assert_eq!(items.remove(&mut tx, &num(99)), Err(EngineError::Context));
    let popped = items.pop(&mut tx, None, None).unwrap();
    assert!(popped.deep_eq(&num(5)));
    items.reverse(&mut tx).unwrap();
    // 3,1 -> append 2 -> extend 4,5 -> insert 0 at 0 -> remove 1 -> pop 5 -> reverse
    let target = items.supervisor_target(&tx).unwrap();
    assert!(target.deep_eq(&Val::List(vec![num(4), num(2), num(3), num(0)])));
    assert_eq!(items.len_of(&tx).unwrap(), 4);
    assert!(items.contains(&tx, &num(4)).unwrap());
    assert!(!items.contains(&tx, &num(9)).unwrap());
    items.clear(&mut tx).unwrap();
    assert_eq!(items.len_of(&tx).unwrap(), 0);
}

#[test]
fn append_needs_append_capability() {
    // the Meta zone grants READ and UPDATE but not APPEND
    let engine = engine_with(dict(vec![(
        "meta_cfg",
        dict(vec![("items", Val::List(vec![]))]),
    )]));
    let mut interner = PolicyInterner::new();
    let guard = ContextGuard::new_internal(
        &mut interner,
        vec!["meta_cfg".to_string()],
        vec!["meta_cfg".to_string()],
        String::new(),
        true,
        false,
        false,
    )
    .unwrap();
    let ov = OverrideTable::new();
    let mut tx = engine.transaction(5000);
    let cfg = match guard.get_attr(engine.state(), &mut tx, &ov, &"meta_cfg".to_string()).unwrap() {
        ReadOutcome::Child(p) => p,
        ReadOutcome::Value(_) => panic!("meta_cfg is a container"),
    };
    let items = match cfg.get_attr(&tx, &ov, &"items".to_string()).unwrap() {
        ReadOutcome::Child(p) => p,
        ReadOutcome::Value(_) => panic!("items is a container"),
    };
    assert_eq!(items.append(&mut tx, num(1)), Err(EngineError::PermissionDenied));
}

#[test]
fn heavy_writes_land_in_pending_heavy() {
    let mut engine = TheusEngine::new();
    let mut tx = engine.transaction(5000);
    tx.enter(0);
    tx.log_delta("heavy.frames".to_string(), None, Some(num(7)));
    tx.commit().unwrap();
    // the heavy. prefix is stripped inside the heavy buffer
    assert!(at(&tx.pending_heavy, "frames").unwrap().deep_eq(&num(7)));
    assert!(at(&tx.pending_data, "heavy").is_none());
}

#[test]
fn dotted_update_keys_expand_as_paths() {
    let mut engine = TheusEngine::new();
    let mut tx = engine.transaction(5000);
    tx.update(Some(&dict(vec![("domain", dict(vec![("a", num(1))]))])), None, None).unwrap();
    tx.update(Some(&dict(vec![("domain.b", num(2))])), None, None).unwrap();
    let pending = tx.build_pending_from_deltas().unwrap();
    assert!(pending.deep_eq(&dict(vec![(
        "domain",
        dict(vec![("a", num(1)), ("b", num(2))]),
    )])));
}

#[test]
fn shadow_updates_collects_edited_roots() {
    let engine = engine_with(dict(vec![(
        "domain",
        dict(vec![("items", Val::List(vec![num(1)]))]),
    )]));
    let mut tx = engine.transaction(5000);
    tx.enter(0);
    let items = list_proxy(&engine, &mut tx);
    items.append(&mut tx, num(2)).unwrap();
    let updates = tx.get_shadow_updates();
    let domain = at(&updates, "domain").expect("the edited root is collected");
    assert!(domain.deep_eq(&dict(vec![("items", Val::List(vec![num(1), num(2)]))])));
}

#[test]
fn get_shadow_reuses_token_per_path() {
    let engine = TheusEngine::new();
    let mut tx = engine.transaction(5000);
    let live = dict(vec![("x", num(1))]);
    let t1 = tx.get_shadow(&live, &"domain".to_string());
    let t2 = tx.get_shadow(&live, &"domain".to_string());
    assert_eq!(t1, t2);
    assert!(tx.is_known_shadow(t1));
    assert!(!tx.is_known_shadow(t1 + 1));
    let t3 = tx.get_shadow(&live, &"other".to_string());
    assert_ne!(t1, t3);
}

#[test]
fn proxy_item_access_with_index() {
    let engine = engine_with(dict(vec![(
        "domain",
        dict(vec![("items", Val::List(vec![num(10), num(20)]))]),
    )]));
    let mut tx = engine.transaction(5000);
    let items = list_proxy(&engine, &mut tx);
    let ov = OverrideTable::new();
    let got = items.get_item(&tx, &ov, &Seg::Index(1)).unwrap();
    match got {
        ReadOutcome::Value(v) => assert!(v.deep_eq(&num(20))),
        ReadOutcome::Child(_) => panic!("a scalar item comes back raw"),
    }
    items.set_item(&mut tx, &ov, &Seg::Index(0), num(11)).unwrap();
    let target = items.supervisor_target(&tx).unwrap();
    assert!(target.deep_eq(&Val::List(vec![num(11), num(20)])));
    // the delta for an item write carries the bracketed path
    let log = tx.get_delta_log();
    assert!(log.iter().any(|p| p == "domain.items[0]"));
}

#[test]
fn sort_orders_integer_lists_and_refuses_mixed() {
    let engine = engine_with(dict(vec![(
        "domain",
        dict(vec![("items", Val::List(vec![num(3), num(1), num(2), num(1)]))]),
    )]));
    let mut tx = engine.transaction(5000);
    tx.enter(0);
    let items = list_proxy(&engine, &mut tx);
    items.sort(&mut tx).unwrap();
    let target = items.supervisor_target(&tx).unwrap();
    assert!(target.deep_eq(&Val::List(vec![num(1), num(1), num(2), num(3)])));
    // dynamic values of mixed kinds have no order
    items.append(&mut tx, Val::Str("x".to_string())).unwrap();
    assert_eq!(items.sort(&mut tx), Err(EngineError::TypeError));
}

#[test]
fn sort_orders_string_lists_lexicographically() {
    let engine = engine_with(dict(vec![(
        "domain",
        dict(vec![(
            "items",
            Val::List(vec![
                Val::Str("pear".to_string()),
                Val::Str("apple".to_string()),
                Val::Str("app".to_string()),
                Val::Str("banana".to_string()),
            ]),
        )]),
    )]));
    let mut tx = engine.transaction(5000);
    tx.enter(0);
    let items = list_proxy(&engine, &mut tx);
    items.sort(&mut tx).unwrap();
    let target = items.supervisor_target(&tx).unwrap();
    assert!(target.deep_eq(&Val::List(vec![
        Val::Str("app".to_string()),
        Val::Str("apple".to_string()),
        Val::Str("banana".to_string()),
        Val::Str("pear".to_string()),
    ])));
}

#[test]
fn registry_parses_lines_with_real_timestamps() {
    let line = "{\"name\":\"seg\",\"pid\":77,\"session\":\"s1\",\"size\":128,\"ts\":1699999999.25}";
    let rec = parse_alloc_record(line).expect("a line with a real timestamp parses");
    assert_eq!(rec.name, "seg");
    assert_eq!(rec.pid, 77);
    assert_eq!(rec.size, 128);
}

#[test]
fn guard_set_attr_reaches_state_at_close() {
    let mut engine = engine_with(dict(vec![("domain", dict(vec![("x", num(1))]))]));
    let mut interner = PolicyInterner::new();
    let guard = ContextGuard::new_internal(
        &mut interner,
        vec!["domain".to_string()],
        vec!["domain".to_string()],
        String::new(),
        true,
        false,
        false,
    )
    .unwrap();
    let mut tx = engine.transaction(5000);
    tx.enter(0);
    let snapshot = State::new(engine.state().data.deep_copy(), Val::Dict(vec![]), Vec::new(), 0, 1000);
    let ov = OverrideTable::new();
    guard.set_attr(&snapshot, &mut tx, &ov, &"domain".to_string(), dict(vec![("x", num(5))])).unwrap();
    tx.close(&mut engine, 1, false).unwrap();
    assert!(at(&engine.state().data, "domain.x").unwrap().deep_eq(&num(5)));
    // a write outside the declared outputs is refused
    let mut tx2 = engine.transaction(5000);
    let snapshot2 = State::new(engine.state().data.deep_copy(), Val::Dict(vec![]), Vec::new(), 1, 1000);
    let r = guard.set_attr(&snapshot2, &mut tx2, &ov, &"elsewhere".to_string(), num(1));
    assert_eq!(r, Err(EngineError::PermissionDenied));
}

#[test]
fn admin_cannot_mutate_constant_container() {
    // an admin read of a Constant-zone container yields a read-only mask:
    // none of the collection mutators may touch it
    let engine = engine_with(dict(vec![(
        "const_tbl",
        dict(vec![("items", Val::List(vec![num(1)])), ("k", num(2))]),
    )]));
    let mut interner = PolicyInterner::new();
    let admin = ContextGuard::new_internal(
        &mut interner,
        vec!["const_tbl".to_string()],
        vec!["const_tbl".to_string()],
        String::new(),
        true,
        true,
        false,
    )
    .unwrap();
    let ov = OverrideTable::new();
    let mut tx = engine.transaction(5000);
    let tbl = match admin.get_attr(engine.state(), &mut tx, &ov, &"const_tbl".to_string()).unwrap() {
        ReadOutcome::Child(p) => p,
        ReadOutcome::Value(_) => panic!("const_tbl is a container"),
    };
    assert_eq!(tbl.update(&mut tx, &dict(vec![("k", num(9))])), Err(EngineError::PermissionDenied));
    assert!(matches!(
        tbl.pop(&mut tx, Some(&Seg::Key("k".to_string())), None),
        Err(EngineError::PermissionDenied)
    ));
    assert_eq!(tbl.clear(&mut tx), Err(EngineError::PermissionDenied));
    let items = match tbl.get_attr(&tx, &ov, &"items".to_string()).unwrap() {
        ReadOutcome::Child(p) => p,
        ReadOutcome::Value(_) => panic!("items is a container"),
    };
    assert_eq!(items.append(&mut tx, num(7)), Err(EngineError::PermissionDenied));
    assert_eq!(items.sort(&mut tx), Err(EngineError::PermissionDenied));
}

#[test]
fn guard_writes_respect_zone_masks() {
    let engine = engine_with(dict(vec![
        ("domain", dict(vec![("const_k", num(1))])),
        ("sig_go", num(0)),
    ]));
    let mut interner = PolicyInterner::new();
    let admin = ContextGuard::new_internal(
        &mut interner,
        vec![],
        vec![],
        String::new(),
        true,
        true,
        false,
    )
    .unwrap();
    let mut tx = engine.transaction(5000);
    // even an admin guard, with an override registered, cannot write below
    // the absolute Constant ceiling
    let mut ov = OverrideTable::new();
    theus_core::zones::register_physics_override(&mut ov, "domain.const_k".to_string(), 15);
    let inner = match admin.get_attr(engine.state(), &mut tx, &ov, &"domain".to_string()).unwrap() {
        ReadOutcome::Child(p) => p,
        ReadOutcome::Value(_) => panic!("domain is a container"),
    };
    let r = inner.set_attr(&mut tx, &ov, &"const_k".to_string(), num(2));
    assert_eq!(r, Err(EngineError::PermissionDenied));
    let rg = admin.set_attr(engine.state(), &mut tx, &ov, &"domain.const_k".to_string(), num(2));
    assert_eq!(rg, Err(EngineError::PermissionDenied));
    // a Signal path is append-only: a guarded attribute write lacks UPDATE
    let writer = ContextGuard::new_internal(
        &mut interner,
        vec!["sig_go".to_string()],
        vec!["sig_go".to_string()],
        String::new(),
        true,
        false,
        false,
    )
    .unwrap();
    let ov2 = OverrideTable::new();
    let rs = writer.set_attr(engine.state(), &mut tx, &ov2, &"sig_go".to_string(), num(1));
    assert_eq!(rs, Err(EngineError::PermissionDenied));
}
