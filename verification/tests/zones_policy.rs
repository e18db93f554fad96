use theus_core::zones::{
    resolve_zone, get_zone_physics, is_absolute_ceiling, register_physics_override,
    clear_physics_overrides, get_physics_override, OverrideTable, ContextZone, CAP_READ,
    CAP_APPEND, CAP_UPDATE, CAP_DELETE,
};
use theus_core::guards::{PolicyInterner, ContextGuard};
use theus_core::errors::EngineError;
use theus_core::engine::TheusEngine;
use theus_core::state::State;
use theus_core::value::Val;
use theus_core::proxy::ReadOutcome;

#[test]
fn zone_selectors() {
    assert_eq!(resolve_zone("domain.counter"), ContextZone::Data);
    assert_eq!(resolve_zone("sig_go"), ContextZone::Signal);
    assert_eq!(resolve_zone("a.cmd_fire"), ContextZone::Signal);
    assert_eq!(resolve_zone("sig"), ContextZone::Signal);
    assert_eq!(resolve_zone("meta_cfg"), ContextZone::Meta);
    assert_eq!(resolve_zone("x.meta"), ContextZone::Meta);
    assert_eq!(resolve_zone("heavy_blob"), ContextZone::Heavy);
    assert_eq!(resolve_zone("heavy.frames"), ContextZone::Heavy);
    assert_eq!(resolve_zone("log_x"), ContextZone::Log);
    assert_eq!(resolve_zone("audit_trail"), ContextZone::Log);
    assert_eq!(resolve_zone("domain.const_k"), ContextZone::Constant);
    assert_eq!(resolve_zone("internal_secret"), ContextZone::Private);
    // every segment is inspected, and the first selector hit wins
    assert_eq!(resolve_zone("a.b.sig_x"), ContextZone::Signal);
    assert_eq!(resolve_zone("const_a.sig_b"), ContextZone::Constant);
    // indices never select a zone
    assert_eq!(resolve_zone("items[0]"), ContextZone::Data);
}

#[test]
fn zone_physics_masks() {
    assert_eq!(get_zone_physics(&ContextZone::Data), CAP_READ | CAP_APPEND | CAP_UPDATE | CAP_DELETE);
    assert_eq!(get_zone_physics(&ContextZone::Signal), CAP_READ | CAP_APPEND);
    assert_eq!(get_zone_physics(&ContextZone::Meta), CAP_READ | CAP_UPDATE);
    assert_eq!(get_zone_physics(&ContextZone::Heavy), CAP_READ | CAP_UPDATE);
    assert_eq!(get_zone_physics(&ContextZone::Log), CAP_READ | CAP_APPEND);
    assert_eq!(get_zone_physics(&ContextZone::Constant), CAP_READ);
    assert_eq!(get_zone_physics(&ContextZone::Private), 0);
}

#[test]
fn only_constant_is_absolute() {
    assert!(is_absolute_ceiling(&ContextZone::Constant));
    assert!(!is_absolute_ceiling(&ContextZone::Data));
    assert!(!is_absolute_ceiling(&ContextZone::Private));
}

#[test]
fn overrides_exact_then_longest_prefix() {
    let mut table = OverrideTable::new();
    register_physics_override(&mut table, "domain.const_data".to_string(), CAP_READ | CAP_UPDATE);
    // exact match
    assert_eq!(get_physics_override(&table, "domain.const_data"), Some(CAP_READ | CAP_UPDATE));
    // longest-prefix match through brackets
    assert_eq!(get_physics_override(&table, "domain.const_data[key]"), Some(CAP_READ | CAP_UPDATE));
    assert_eq!(get_physics_override(&table, "domain.other"), None);
    // a later registration for the same path replaces the earlier one
    register_physics_override(&mut table, "domain.const_data".to_string(), CAP_READ);
    assert_eq!(get_physics_override(&table, "domain.const_data"), Some(CAP_READ));
    clear_physics_overrides(&mut table);
    assert_eq!(get_physics_override(&table, "domain.const_data"), None);
}

#[test]
fn policy_interning_shares_identity() {
    let mut interner = PolicyInterner::new();
    let g1 = ContextGuard::new_internal(
        &mut interner,
        vec!["domain".to_string()],
        vec!["domain".to_string()],
        String::new(),
        false,
        false,
        false,
    )
    .unwrap();
    let g2 = ContextGuard::new_internal(
        &mut interner,
        vec!["domain".to_string()],
        vec!["domain".to_string()],
        String::new(),
        false,
        false,
        false,
    )
    .unwrap();
    let g3 = ContextGuard::new_internal(
        &mut interner,
        vec!["other".to_string()],
        vec![],
        String::new(),
        false,
        false,
        false,
    )
    .unwrap();
    assert_eq!(g1.policy_id(), g2.policy_id());
    assert_ne!(g1.policy_id(), g3.policy_id());
}

#[test]
fn strict_guard_refuses_control_zone_inputs() {
    let mut interner = PolicyInterner::new();
    let r = ContextGuard::new_internal(
        &mut interner,
        vec!["sig_go".to_string()],
        vec![],
        String::new(),
        false,
        false,
        true,
    );
    assert_eq!(r.err(), Some(EngineError::SecurityViolation));
    let r2 = ContextGuard::new_internal(
        &mut interner,
        vec!["meta_cfg".to_string()],
        vec![],
        String::new(),
        false,
        false,
        true,
    );
    assert_eq!(r2.err(), Some(EngineError::SecurityViolation));
    // the same inputs pass without strict mode
    let r3 = ContextGuard::new_internal(
        &mut interner,
        vec!["sig_go".to_string()],
        vec![],
        String::new(),
        false,
        false,
        false,
    );
    assert!(r3.is_ok());
}

#[test]
fn permission_rules_prefix_forms() {
    let mut interner = PolicyInterner::new();
    let g = ContextGuard::new_internal(
        &mut interner,
        vec!["domain.readable".to_string()],
        vec!["domain.box".to_string()],
        String::new(),
        false,
        false,
        false,
    )
    .unwrap();
    // reads come from inputs or outputs
    assert!(g.check_permissions(&"domain.readable".to_string(), false));
    assert!(g.check_permissions(&"domain.box".to_string(), false));
    // exact, dotted-prefix and bracketed-prefix forms
    assert!(g.check_permissions(&"domain.box.inner".to_string(), true));
    assert!(g.check_permissions(&"domain.box[3]".to_string(), true));
    // a rule that refines the path also grants traversal
    assert!(g.check_permissions(&"domain".to_string(), true));
    // writes need an output rule
    assert!(!g.check_permissions(&"domain.readable".to_string(), true));
    assert!(!g.check_permissions(&"elsewhere".to_string(), false));
}

#[test]
fn override_reveals_private_path_to_guard_reads() {
    // an override is the sanctioned, admin-intended widening of Private
    let mut engine = TheusEngine::new();
    let st = State::new(
        Val::Dict(vec![("internal_x".to_string(), Val::Int(42))]),
        Val::Dict(vec![]),
        Vec::new(),
        0,
        1000,
    );
    engine.commit_state(st);
    let mut interner = PolicyInterner::new();
    let guard = ContextGuard::new_internal(
        &mut interner,
        vec!["internal_x".to_string()],
        vec![],
        String::new(),
        true,
        false,
        false,
    )
    .unwrap();
    let mut tx = engine.transaction(5000);
    let mut ov = OverrideTable::new();
    // hidden without an override
    match guard.get_attr(engine.state(), &mut tx, &ov, &"internal_x".to_string()).unwrap() {
        ReadOutcome::Value(v) => assert!(v.deep_eq(&Val::Null)),
        ReadOutcome::Child(_) => panic!("a hidden value is a silent null"),
    }
    // visible once the path is overridden to grant READ
    register_physics_override(&mut ov, "internal_x".to_string(), CAP_READ);
    match guard.get_attr(engine.state(), &mut tx, &ov, &"internal_x".to_string()).unwrap() {
        ReadOutcome::Value(v) => assert!(v.deep_eq(&Val::Int(42))),
        ReadOutcome::Child(_) => panic!("a scalar comes back raw"),
    }
}

#[test]
fn constant_override_never_widens() {
    // the absolute ceiling ignores even a registered override
    let mut ov = OverrideTable::new();
    register_physics_override(&mut ov, "domain.const_k".to_string(), CAP_READ | CAP_UPDATE);
    let eff = theus_core::proxy::effective_caps(
        CAP_READ | CAP_APPEND | CAP_UPDATE | CAP_DELETE,
        &ov,
        &"domain.const_k".to_string(),
    );
    assert_eq!(eff & CAP_UPDATE, 0);
    assert_eq!(eff & CAP_READ, CAP_READ);
}

#[test]
fn audit_flag_is_recorded() {
    let mut engine = TheusEngine::new();
    assert!(!engine.audit_attached);
    engine.set_audit_system();
    assert!(engine.audit_attached);
}
