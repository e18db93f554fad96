//! Per-process context guards and the interned access policies behind them.
//!
//! A guard presents one process's view of the state: only paths under its
//! declared inputs may be read, only paths under its declared outputs may be
//! written, by exact match or dotted/bracketed prefix; admin guards bypass
//! the check. Equal `(inputs, outputs, strict_guards)` triples share one
//! interned policy, observable through the policy identifier. In strict mode
//! a guard refuses at construction any input from a control zone (Signal or
//! Meta). Reads hand containers out as supervisor proxies bound to the
//! transaction; writes must clear the effective capability mask of their
//! path (the Constant ceiling refuses every writer) and then go through the
//! delta log and the shadow tree.
use vstd::prelude::*;
use crate::value::{Val, ValModel, get_path};
use crate::paths::{Seg, SegModel, path_model};
use crate::errors::EngineError;
use crate::state::State;
use crate::zones::{OverrideTable, table_model, spec_has_cap, CAP_READ, CAP_APPEND, CAP_UPDATE, CAP_DELETE};
use crate::transaction::Transaction;
use crate::proxy::{SupervisorProxy, ReadOutcome, spec_attr_path, spec_item_path, attr_path, item_path, seg_string, CAP_FULL};

verus! {

/// One process's declared contract: input paths, output paths, strictness.
pub struct SharedPolicy {
    pub inputs: Vec<String>,
    pub outputs: Vec<String>,
    pub strict_guards: bool,
}

/// Model of a path list.
pub open spec fn strs_model(s: Seq<String>) -> Seq<Seq<char>> {
    Seq::new(s.len(), |i: int| if 0 <= i < s.len() { s[i]@ } else { Seq::<char>::empty() })
}

/// Model of a policy.
pub struct PolicyModel {
    pub inputs: Seq<Seq<char>>,
    pub outputs: Seq<Seq<char>>,
    pub strict_guards: bool,
}

impl View for SharedPolicy {
    type V = PolicyModel;

    open spec fn view(&self) -> PolicyModel {
        PolicyModel {
            inputs: strs_model(self.inputs@),
            outputs: strs_model(self.outputs@),
            strict_guards: self.strict_guards,
        }
    }
}

/// Model of the interner's policies.
pub open spec fn pols_model(s: Seq<SharedPolicy>) -> Seq<PolicyModel> {
    Seq::new(s.len(), |i: int| if 0 <= i < s.len() { s[i]@ } else { PolicyModel { inputs: Seq::empty(), outputs: Seq::empty(), strict_guards: false } })
}

/// First interned policy equal to the triple, or the table length.
pub open spec fn intern_idx(ps: Seq<PolicyModel>, m: PolicyModel) -> int
    decreases ps.len(),
{
    if ps.len() == 0 {
        0
    } else if ps[0] == m {
        0
    } else {
        1 + intern_idx(ps.drop_first(), m)
    }
}

/// A matching policy at `k` after a mismatch prefix is the interned one.
pub proof fn lemma_intern_idx_at(ps: Seq<PolicyModel>, m: PolicyModel, k: int)
    requires
        0 <= k < ps.len(),
        ps[k] == m,
        forall|j: int| 0 <= j < k ==> ps[j] != m,
    ensures
        intern_idx(ps, m) == k,
    decreases k,
{
    if k > 0 {
        assert forall|j: int| 0 <= j < k - 1 implies ps.drop_first()[j] != m by {
            assert(ps.drop_first()[j] == ps[j + 1]);
        }
        lemma_intern_idx_at(ps.drop_first(), m, k - 1);
    }
}

/// With no matching policy, the interned index is the table length.
pub proof fn lemma_intern_idx_none(ps: Seq<PolicyModel>, m: PolicyModel)
    requires
        forall|j: int| 0 <= j < ps.len() ==> ps[j] != m,
    ensures
        intern_idx(ps, m) == ps.len(),
    decreases ps.len(),
{
    if ps.len() > 0 {
        assert forall|j: int| 0 <= j < ps.drop_first().len() implies ps.drop_first()[j] != m by {
            assert(ps.drop_first()[j] == ps[j + 1]);
        }
        lemma_intern_idx_none(ps.drop_first(), m);
    }
}

/// The process-wide policy table (the flyweight store).
pub struct PolicyInterner {
    pub policies: Vec<SharedPolicy>,
}

impl PolicyInterner {
    /// An empty interner.
    pub fn new() -> (r: PolicyInterner)
        ensures
            r.policies@.len() == 0,
    {
        PolicyInterner { policies: Vec::new() }
    }
}

/// Whether two path lists hold the same paths in order.
fn strs_eq(a: &Vec<String>, b: &Vec<String>) -> (r: bool)
    ensures
        r == (strs_model(a@) =~= strs_model(b@)),
{
    if a.len() != b.len() {
        return false;
    }
    let mut i: usize = 0;
    while i < a.len()
        invariant
            i <= a@.len(),
            a@.len() == b@.len(),
            forall|j: int| 0 <= j < i ==> a@[j]@ == b@[j]@,
        decreases a@.len() - i,
    {
        if !a[i].eq(&b[i]) {
            proof {
                assert(strs_model(a@)[i as int] != strs_model(b@)[i as int]);
            }
            return false;
        }
        i = i + 1;
    }
    proof {
        assert(strs_model(a@) =~= strs_model(b@));
    }
    true
}

/// Copy of a path list.
fn strs_copy(s: &Vec<String>) -> (r: Vec<String>)
    ensures
        strs_model(r@) =~= strs_model(s@),
{
    let mut out: Vec<String> = Vec::new();
    let mut i: usize = 0;
    while i < s.len()
        invariant
            i <= s@.len(),
            out@.len() == i as int,
            forall|j: int| 0 <= j < i ==> out@[j]@ == s@[j]@,
        decreases s@.len() - i,
    {
        out.push(s[i].clone());
        i = i + 1;
    }
    out
}

/// Intern the triple: hand back the identifier of the first equal policy,
/// appending the triple as a new policy when none matches. Two interns of
/// equal triples therefore share one identifier.
pub fn intern_policy(interner: &mut PolicyInterner, policy: SharedPolicy) -> (r: usize)
    ensures
        ({
            let ps0 = pols_model(old(interner).policies@);
            let idx = intern_idx(ps0, policy@);
            &&& r == idx
            &&& (if idx < ps0.len() {
                *final(interner) == *old(interner)
            } else {
                pols_model(final(interner).policies@) =~= ps0.push(policy@)
            })
        }),
{
    let ghost ps0 = pols_model(interner.policies@);
    let mut i: usize = 0;
    while i < interner.policies.len()
        invariant
            i <= interner.policies@.len(),
            ps0 == pols_model(interner.policies@),
            forall|j: int| 0 <= j < i ==> ps0[j] != policy@,
        decreases interner.policies@.len() - i,
    {
        let p = &interner.policies[i];
        if p.strict_guards == policy.strict_guards && strs_eq(&p.inputs, &policy.inputs)
            && strs_eq(&p.outputs, &policy.outputs) {
            proof {
                assert(ps0[i as int] =~~= policy@);
                lemma_intern_idx_at(ps0, policy@, i as int);
            }
            return i;
        }
        proof {
            assert(ps0[i as int] != policy@);
        }
        i = i + 1;
    }
    proof {
        lemma_intern_idx_none(ps0, policy@);
    }
    let r = interner.policies.len();
    interner.policies.push(policy);
    proof {
        assert(pols_model(interner.policies@) =~= ps0.push(pols_model(interner.policies@).last()));
    }
    r
}

/// Interning the same triple twice, in either order of other interns
/// happening before, yields the identifier of the first intern: guards built
/// from equal `(inputs, outputs, strict_guards)` triples share one policy.
pub proof fn lemma_interning_shares(ps0: Seq<PolicyModel>, m: PolicyModel)
    ensures
        ({
            let idx = intern_idx(ps0, m);
            let ps1 = if idx < ps0.len() {
                ps0
            } else {
                ps0.push(m)
            };
            intern_idx(ps1, m) == idx
        }),
    decreases ps0.len(),
{
    let idx = intern_idx(ps0, m);
    lemma_intern_bounds(ps0, m);
    if idx < ps0.len() {
    } else {
        let ps1 = ps0.push(m);
        assert(ps1[idx] == m);
        assert forall|j: int| 0 <= j < idx implies ps1[j] != m by {
            lemma_intern_miss(ps0, m, j);
            assert(ps1[j] == ps0[j]);
        }
        lemma_intern_idx_at(ps1, m, idx);
    }
}

/// The interned index is in range or just past, hits on a match, and
/// every earlier policy differs.
pub proof fn lemma_intern_bounds(ps: Seq<PolicyModel>, m: PolicyModel)
    ensures
        0 <= intern_idx(ps, m) <= ps.len(),
        intern_idx(ps, m) < ps.len() ==> ps[intern_idx(ps, m)] == m,
    decreases ps.len(),
{
    if ps.len() > 0 && ps[0] != m {
        lemma_intern_bounds(ps.drop_first(), m);
    }
}

/// Policies before the interned index differ from the triple.
pub proof fn lemma_intern_miss(ps: Seq<PolicyModel>, m: PolicyModel, j: int)
    requires
        0 <= j < intern_idx(ps, m),
        j < ps.len(),
    ensures
        ps[j] != m,
    decreases j,
{
    if j > 0 {
        lemma_intern_miss(ps.drop_first(), m, j - 1);
        assert(ps.drop_first()[j - 1] == ps[j]);
    }
}

/// Whether one access rule covers a path: exact match, the rule refines the
/// path (`rule` starts `path.`), or the path lies under the rule (`path`
/// starts `rule.` or `rule[`).
pub open spec fn rule_matches(rule: Seq<char>, path: Seq<char>) -> bool {
    ||| rule == path
    ||| (path + seq!['.']).is_prefix_of(rule)
    ||| (rule + seq!['.']).is_prefix_of(path)
    ||| (rule + seq!['[']).is_prefix_of(path)
}

/// Whether any rule in the list covers the path.
pub open spec fn any_rule_matches(rules: Seq<Seq<char>>, path: Seq<char>) -> bool {
    exists|i: int| 0 <= i < rules.len() && rule_matches(#[trigger] rules[i], path)
}

/// Whether one access rule covers a path.
fn rule_matches_exec(rule: &String, path: &String) -> (r: bool)
    ensures
        r == rule_matches(rule@, path@),
{
    proof {
        reveal_strlit(".");
        reveal_strlit("[");
    }
    let rc = crate::paths::str_to_chars(rule.as_str());
    let pc = crate::paths::str_to_chars(path.as_str());
    if crate::paths::chars_eq(&rc, &pc) {
        return true;
    }
    let mut pdot = pc.clone();
    pdot.push('.');
    proof {
        assert(pdot@ =~= path@ + seq!['.']);
    }
    if crate::paths::chars_has_prefix(&rc, &pdot) {
        return true;
    }
    let mut rdot = rc.clone();
    rdot.push('.');
    proof {
        assert(rdot@ =~= rule@ + seq!['.']);
    }
    if crate::paths::chars_has_prefix(&pc, &rdot) {
        return true;
    }
    let mut rbr = rc.clone();
    rbr.push('[');
    proof {
        assert(rbr@ =~= rule@ + seq!['[']);
    }
    if crate::paths::chars_has_prefix(&pc, &rbr) {
        return true;
    }
    false
}

/// Whether any rule in the list covers the path.
fn rules_cover(rules: &Vec<String>, path: &String) -> (r: bool)
    ensures
        r == any_rule_matches(strs_model(rules@), path@),
{
    let mut i: usize = 0;
    while i < rules.len()
        invariant
            i <= rules@.len(),
            forall|j: int| 0 <= j < i ==> !rule_matches(#[trigger] strs_model(rules@)[j], path@),
        decreases rules@.len() - i,
    {
        if rule_matches_exec(&rules[i], path) {
            proof {
                assert(rule_matches(strs_model(rules@)[i as int], path@));
            }
            return true;
        }
        i = i + 1;
    }
    false
}

/// Per-process facade over the state, showing only declared paths.
pub struct ContextGuard {
    /// Identifier of the interned policy the guard shares.
    pub policy_id: usize,
    /// Declared readable paths.
    pub inputs: Vec<String>,
    /// Declared writable paths.
    pub outputs: Vec<String>,
    /// Whether control-zone inputs are refused.
    pub strict_guards: bool,
    /// Path the guard stands at (empty at the root).
    pub path_prefix: String,
    /// Whether a transaction is attached.
    pub has_tx: bool,
    /// Whether the guard bypasses permission checks.
    pub is_admin: bool,
}

/// Whether the path may be accessed under the policy: writes need an output
/// rule, reads an input or output rule; admin always may.
pub open spec fn spec_permitted(g: ContextGuard, path: Seq<char>, is_write: bool) -> bool {
    if g.is_admin {
        true
    } else if is_write {
        any_rule_matches(strs_model(g.outputs@), path)
    } else {
        any_rule_matches(strs_model(g.inputs@), path) || any_rule_matches(strs_model(g.outputs@), path)
    }
}

/// Whether any path in the list resolves to a restricted control zone.
pub open spec fn spec_has_control_input(inputs: Seq<Seq<char>>) -> bool {
    exists|i: int| 0 <= i < inputs.len() && ({
        let z = crate::zones::spec_zone_of(crate::paths::spec_parse_path(#[trigger] inputs[i]));
        z is Signal || z is Meta
    })
}

/// How a permitted guarded write lands in the session. Exactly one delta
/// records the write: its path is the full child path, its value the
/// written value, its old value the state's value at that path. The
/// root's shadow — reused when the root is already shadowed, else taken
/// fresh from the state's value at the root (an empty dict when the root
/// is absent) — holds the written value placed at the path below the
/// root; a sub-path the working copy cannot take fails with that path
/// error, leaving the working copy as it was (the delta stays recorded).
pub open spec fn spec_guard_written(state: State, t0: Transaction, t1: Transaction, cpath: Seq<char>, value: ValModel, r: Result<(), EngineError>) -> bool {
    let segs = crate::paths::spec_parse_path(cpath);
    let sub = if segs.len() > 0 {
        segs.drop_first()
    } else {
        segs
    };
    let root = crate::transaction::spec_root_of(cpath);
    let live = match get_path(state.data@, crate::paths::spec_parse_path(root)) {
        Some(v) => v,
        None => ValModel::Dict(Seq::empty()),
    };
    let prior = get_path(state.data@, segs);
    let s0 = crate::transaction::shadows_model(t0.shadows@);
    let i = crate::transaction::first_shadow(s0, root);
    let token: int = if i < s0.len() {
        i
    } else {
        s0.len() as int
    };
    let edited0 = if i < s0.len() {
        s0[i].edited
    } else {
        live
    };
    &&& t1.delta_log@.len() == t0.delta_log@.len() + 1
    &&& t1.delta_log@.take(t0.delta_log@.len() as int) == t0.delta_log@
    &&& ({
        let e = t1.delta_log@.last()@;
        &&& e.path_str == cpath
        &&& e.op == crate::transaction::DeltaOp::Write
        &&& e.value == Some(value)
        &&& e.old_value == prior
    })
    &&& t1.shadows@.len() as int == (if i < s0.len() {
        t0.shadows@.len() as int
    } else {
        t0.shadows@.len() as int + 1
    })
    &&& (forall|j: int| 0 <= j < t0.shadows@.len() && j != token ==> t1.shadows@[j] == t0.shadows@[j])
    &&& ({
        let e1 = t1.shadows@[token]@;
        &&& e1.path_str == root
        &&& (i < s0.len() ==> e1.pristine == s0[i].pristine && e1.aliased == s0[i].aliased)
        &&& (i >= s0.len() ==> e1.pristine == live
            && e1.aliased == (crate::zones::spec_zone_of(crate::paths::spec_parse_path(root)) is Heavy))
        &&& (match crate::value::place_at(edited0, sub, value) {
            Ok(ne) => r is Ok && e1.edited == ne,
            Err(e) => r == Err::<(), EngineError>(e) && e1.edited == edited0,
        })
    })
    &&& t1 == (Transaction {
        shadows: t1.shadows,
        path_to_shadow: t1.path_to_shadow,
        delta_log: t1.delta_log,
        ..t0
    })
}

impl ContextGuard {
    /// Build a guard over the interned policy for the triple. In strict mode
    /// an input path in the Signal or Meta zone is a security violation; the
    /// policy is interned first either way.
    pub fn new_internal(
        interner: &mut PolicyInterner,
        inputs: Vec<String>,
        outputs: Vec<String>,
        path_prefix: String,
        has_tx: bool,
        is_admin: bool,
        strict_guards: bool,
    ) -> (r: Result<ContextGuard, EngineError>)
        ensures
            ({
                let m = PolicyModel {
                    inputs: strs_model(inputs@),
                    outputs: strs_model(outputs@),
                    strict_guards: strict_guards,
                };
                let ps0 = pols_model(old(interner).policies@);
                let idx = intern_idx(ps0, m);
                &&& (if idx < ps0.len() {
                    *final(interner) == *old(interner)
                } else {
                    pols_model(final(interner).policies@) =~= ps0.push(m)
                })
                &&& (if strict_guards && spec_has_control_input(strs_model(inputs@)) {
                    r == Err::<ContextGuard, EngineError>(EngineError::SecurityViolation)
                } else {
                    r matches Ok(g) && {
                        &&& g.policy_id == idx
                        &&& strs_model(g.inputs@) =~= strs_model(inputs@)
                        &&& strs_model(g.outputs@) =~= strs_model(outputs@)
                        &&& g.strict_guards == strict_guards
                        &&& g.path_prefix@ == path_prefix@
                        &&& g.has_tx == has_tx
                        &&& g.is_admin == is_admin
                    }
                })
            }),
    {
        let pol_inputs = strs_copy(&inputs);
        let pol_outputs = strs_copy(&outputs);
        let policy = SharedPolicy { inputs: pol_inputs, outputs: pol_outputs, strict_guards };
        proof {
            assert(policy@ =~~= (PolicyModel {
                inputs: strs_model(inputs@),
                outputs: strs_model(outputs@),
                strict_guards: strict_guards,
            }));
        }
        let policy_id = intern_policy(interner, policy);
        if strict_guards {
            let mut i: usize = 0;
            while i < inputs.len()
                invariant
                    i <= inputs@.len(),
                    ({
                        let m = PolicyModel {
                            inputs: strs_model(inputs@),
                            outputs: strs_model(outputs@),
                            strict_guards: strict_guards,
                        };
                        let ps0 = pols_model(old(interner).policies@);
                        let idx = intern_idx(ps0, m);
                        if idx < ps0.len() {
                            *interner == *old(interner)
                        } else {
                            pols_model(interner.policies@) =~= ps0.push(m)
                        }
                    }),
                    strict_guards,
                    forall|j: int| 0 <= j < i ==> !({
                        let z = crate::zones::spec_zone_of(crate::paths::spec_parse_path(#[trigger] strs_model(inputs@)[j]));
                        z is Signal || z is Meta
                    }),
                decreases inputs@.len() - i,
            {
                let zone = crate::zones::resolve_zone(inputs[i].as_str());
                let restricted = match zone {
                    crate::zones::ContextZone::Signal => true,
                    crate::zones::ContextZone::Meta => true,
                    _ => false,
                };
                if restricted {
                    proof {
                        let z = crate::zones::spec_zone_of(crate::paths::spec_parse_path(strs_model(inputs@)[i as int]));
                        assert(z is Signal || z is Meta);
                    }
                    return Err(EngineError::SecurityViolation);
                }
                i = i + 1;
            }
        }
        Ok(ContextGuard {
            policy_id,
            inputs,
            outputs,
            strict_guards,
            path_prefix,
            has_tx,
            is_admin,
        })
    }

    /// The identifier of the guard's interned policy.
    pub fn policy_id(&self) -> (r: usize)
        ensures
            r == self.policy_id,
    {
        self.policy_id
    }

    /// Toggle admin bypass on the guard.
    pub fn elevate(&mut self, enabled: bool)
        ensures
            *final(self) == (ContextGuard { is_admin: enabled, ..*old(self) }),
    {
        self.is_admin = enabled;
    }

    /// The capability mask a wrapped container gets: full for admin guards
    /// except at the absolute Constant ceiling; otherwise the path's
    /// override (or, absent one, its zone physics; the ceiling admits no
    /// override) intersected with the process licence — read, append, update
    /// and delete for admin guards or under a matching output rule, read
    /// alone otherwise.
    pub open spec fn spec_guard_caps(&self, tbl: Seq<(Seq<char>, u8)>, path: Seq<char>) -> u8 {
        let zone = crate::zones::spec_zone_of(crate::paths::spec_parse_path(path));
        if self.is_admin && !crate::zones::spec_absolute_ceiling(zone) {
            CAP_FULL
        } else {
            let physics = if crate::zones::spec_absolute_ceiling(zone) {
                crate::zones::spec_zone_physics(zone)
            } else {
                match crate::zones::spec_get_override(tbl, path) {
                    Some(c) => c,
                    None => crate::zones::spec_zone_physics(zone),
                }
            };
            let license: u8 = if self.is_admin || any_rule_matches(strs_model(self.outputs@), path) {
                CAP_READ | CAP_APPEND | CAP_UPDATE | CAP_DELETE
            } else {
                CAP_READ
            };
            physics & license
        }
    }

    /// Exec mirror of the wrapped-container capability mask.
    fn guard_caps(&self, ov: &OverrideTable, path: &String) -> (r: u8)
        ensures
            r == self.spec_guard_caps(table_model(ov.entries@), path@),
    {
        let segs = crate::paths::parse_path_segments(path.as_str());
        let zone = crate::zones::resolve_zone_segs(&segs);
        if self.is_admin && !crate::zones::is_absolute_ceiling(&zone) {
            CAP_FULL
        } else {
            let physics = if crate::zones::is_absolute_ceiling(&zone) {
                crate::zones::get_zone_physics(&zone)
            } else {
                match crate::zones::get_physics_override(ov, path.as_str()) {
                    Some(c) => c,
                    None => crate::zones::get_zone_physics(&zone),
                }
            };
            let license: u8 = if self.is_admin {
                CAP_READ | CAP_APPEND | CAP_UPDATE | CAP_DELETE
            } else if rules_cover(&self.outputs, path) {
                CAP_READ | CAP_APPEND | CAP_UPDATE | CAP_DELETE
            } else {
                CAP_READ
            };
            physics & license
        }
    }

    /// How a guarded container read lands: the transaction gains (or reuses)
    /// a shadow for the path, and the outcome is a proxy over it with the
    /// guard's capability mask, read-only unless an output rule covers the
    /// path (admin guards always may write).
    pub open spec fn spec_wrapped(&self, tbl: Seq<(Seq<char>, u8)>, t0: Transaction, t1: Transaction, v: ValModel, cpath: Seq<char>, out: ReadOutcome) -> bool {
        let s0 = crate::transaction::shadows_model(t0.shadows@);
        let i = crate::transaction::first_shadow(s0, cpath);
        let can_write = self.is_admin || any_rule_matches(strs_model(self.outputs@), cpath);
        &&& (if i < s0.len() {
            t1 == t0 && (out matches ReadOutcome::Child(p) ==> p.token == i) && (out is Child)
        } else {
            &&& (out matches ReadOutcome::Child(p) && p.token == s0.len())
            &&& t1.shadows@.len() == t0.shadows@.len() + 1
            &&& t1.shadows@.take(t0.shadows@.len() as int) == t0.shadows@
            &&& ({
                let e = t1.shadows@.last()@;
                &&& e.path_str == cpath
                &&& e.edited == v
                &&& e.pristine == v
            })
        })
        &&& (out matches ReadOutcome::Child(p) && {
            &&& p.path@ == cpath
            &&& p.rel@.len() == 0
            &&& p.read_only == !can_write
            &&& p.has_transaction
            &&& p.is_shadow
            &&& p.capabilities == self.spec_guard_caps(tbl, cpath)
        })
    }

    /// Wrap a state value read at a path: scalars (and reads outside a
    /// transaction) come back raw; containers are shadowed and proxied.
    fn apply_guard(&self, tx: &mut Transaction, ov: &OverrideTable, val: Val, cpath: String) -> (r: ReadOutcome)
        ensures
            (!(val@ is Dict || val@ is List) || !self.has_tx) ==> (*final(tx) == *old(tx)
                && (r matches ReadOutcome::Value(v) && v@ == val@)),
            ((val@ is Dict || val@ is List) && self.has_tx) ==> self.spec_wrapped(table_model(ov.entries@), *old(tx), *final(tx), val@, cpath@, r),
    {
        let container = val.is_dict() || val.is_list();
        if !container || !self.has_tx {
            return ReadOutcome::Value(val);
        }
        let caps = self.guard_caps(ov, &cpath);
        let can_write = if self.is_admin {
            true
        } else {
            rules_cover(&self.outputs, &cpath)
        };
        let token = tx.get_shadow(&val, &cpath);
        ReadOutcome::Child(SupervisorProxy::new(cpath, token, !can_write, true, true, caps))
    }

    /// Guarded attribute read: strict guards refuse underscore names, other
    /// underscore names are unknown; the path must lie under the declared
    /// inputs or outputs; a path the guard's capability mask cannot read (a
    /// Private path, for one) yields a silent null; otherwise the value is
    /// fetched from the state's data tree at the full path and wrapped.
    pub fn get_attr(&self, state: &State, tx: &mut Transaction, ov: &OverrideTable, name: &String) -> (r: Result<ReadOutcome, EngineError>)
        ensures
            ({
                let cpath = spec_attr_path(self.path_prefix@, name@);
                if self.strict_guards && name@.len() > 0 && name@[0] == '_' {
                    r == Err::<ReadOutcome, EngineError>(EngineError::PermissionDenied) && *final(tx) == *old(tx)
                } else if name@.len() > 0 && name@[0] == '_' {
                    r == Err::<ReadOutcome, EngineError>(EngineError::TypeError) && *final(tx) == *old(tx)
                } else if !spec_permitted(*self, cpath, false) {
                    r == Err::<ReadOutcome, EngineError>(EngineError::PermissionDenied) && *final(tx) == *old(tx)
                } else if !spec_has_cap(self.spec_guard_caps(table_model(ov.entries@), cpath), CAP_READ) {
                    *final(tx) == *old(tx)
                        && (r matches Ok(out) && (out matches ReadOutcome::Value(rv) && rv@ == crate::value::ValModel::Null))
                } else {
                    match get_path(state.data@, crate::paths::spec_parse_path(cpath)) {
                        Some(v) => {
                            if !(v is Dict || v is List) || !self.has_tx {
                                *final(tx) == *old(tx)
                                    && (r matches Ok(out) && (out matches ReadOutcome::Value(rv) && rv@ == v))
                            } else {
                                r matches Ok(out) && self.spec_wrapped(table_model(ov.entries@), *old(tx), *final(tx), v, cpath, out)
                            }
                        },
                        None => r == Err::<ReadOutcome, EngineError>(EngineError::TypeError) && *final(tx) == *old(tx),
                    }
                }
            }),
    {
        let own = crate::paths::str_to_chars(name.as_str());
        if own.len() > 0 {
            if own[0] == '_' {
                if self.strict_guards {
                    return Err(EngineError::PermissionDenied);
                }
                return Err(EngineError::TypeError);
            }
        }
        let cpath = attr_path(&self.path_prefix, name);
        if !self.check_permissions(&cpath, false) {
            return Err(EngineError::PermissionDenied);
        }
        if !crate::zones::has_cap(self.guard_caps(ov, &cpath), CAP_READ) {
            return Ok(ReadOutcome::Value(Val::Null));
        }
        let segs = crate::paths::parse_path_segments(cpath.as_str());
        proof {
            assert(path_model(segs@).skip(0) =~= path_model(segs@));
        }
        let val = match state.data.get_at_path(&segs, 0) {
            Some(v) => v.deep_copy(),
            None => {
                return Err(EngineError::TypeError);
            },
        };
        Ok(self.apply_guard(tx, ov, val, cpath))
    }

    /// Guarded item read: like an attribute read, with the bracketed path
    /// form for index keys and the dotted form for string keys.
    pub fn get_item(&self, state: &State, tx: &mut Transaction, ov: &OverrideTable, key: &Seg) -> (r: Result<ReadOutcome, EngineError>)
        ensures
            ({
                let cpath = match key@ {
                    SegModel::Index(_) => spec_item_path(self.path_prefix@, crate::zones::seg_chars(key@)),
                    SegModel::Key(k) => spec_attr_path(self.path_prefix@, k),
                };
                if !spec_permitted(*self, cpath, false) {
                    r == Err::<ReadOutcome, EngineError>(EngineError::PermissionDenied) && *final(tx) == *old(tx)
                } else if !spec_has_cap(self.spec_guard_caps(table_model(ov.entries@), cpath), CAP_READ) {
                    *final(tx) == *old(tx)
                        && (r matches Ok(out) && (out matches ReadOutcome::Value(rv) && rv@ == crate::value::ValModel::Null))
                } else {
                    match get_path(state.data@, crate::paths::spec_parse_path(cpath)) {
                        Some(v) => {
                            if !(v is Dict || v is List) || !self.has_tx {
                                *final(tx) == *old(tx)
                                    && (r matches Ok(out) && (out matches ReadOutcome::Value(rv) && rv@ == v))
                            } else {
                                r matches Ok(out) && self.spec_wrapped(table_model(ov.entries@), *old(tx), *final(tx), v, cpath, out)
                            }
                        },
                        None => r == Err::<ReadOutcome, EngineError>(EngineError::TypeError) && *final(tx) == *old(tx),
                    }
                }
            }),
    {
        let cpath = match key {
            Seg::Index(_) => {
                let ks = seg_string(key);
                item_path(&self.path_prefix, &ks)
            },
            Seg::Key(k) => attr_path(&self.path_prefix, k),
        };
        if !self.check_permissions(&cpath, false) {
            return Err(EngineError::PermissionDenied);
        }
        if !crate::zones::has_cap(self.guard_caps(ov, &cpath), CAP_READ) {
            return Ok(ReadOutcome::Value(Val::Null));
        }
        let segs = crate::paths::parse_path_segments(cpath.as_str());
        proof {
            assert(path_model(segs@).skip(0) =~= path_model(segs@));
        }
        let val = match state.data.get_at_path(&segs, 0) {
            Some(v) => v.deep_copy(),
            None => {
                return Err(EngineError::TypeError);
            },
        };
        Ok(self.apply_guard(tx, ov, val, cpath))
    }

    /// Guarded write: the path must lie under the declared outputs (admin
    /// bypasses), and the guard's effective capability mask at the path must
    /// carry UPDATE — so the absolute Constant ceiling refuses every writer,
    /// admin included; outside the Heavy zone a transaction is required. The
    /// root of the path is shadowed (reusing an existing shadow), the write
    /// is recorded in the delta log with the prior value from the state, and
    /// applied to the shadow's working copy under the root.
    pub fn set_attr(&self, state: &State, tx: &mut Transaction, ov: &OverrideTable, name: &String, value: Val) -> (r: Result<(), EngineError>)
        requires
            state.wf(),
        ensures
            ({
                let cpath = spec_attr_path(self.path_prefix@, name@);
                if !spec_permitted(*self, cpath, true) {
                    r == Err::<(), EngineError>(EngineError::PermissionDenied) && *final(tx) == *old(tx)
                } else if !spec_has_cap(self.spec_guard_caps(table_model(ov.entries@), cpath), CAP_UPDATE) {
                    r == Err::<(), EngineError>(EngineError::PermissionDenied) && *final(tx) == *old(tx)
                } else if !self.has_tx
                    && !(crate::zones::spec_zone_of(crate::paths::spec_parse_path(cpath)) is Heavy) {
                    r == Err::<(), EngineError>(EngineError::NoActiveTransaction) && *final(tx) == *old(tx)
                } else {
                    spec_guard_written(*state, *old(tx), *final(tx), cpath, value@, r)
                }
            }),
    {
        let cpath = attr_path(&self.path_prefix, name);
        self.write_at(state, tx, ov, cpath, value)
    }

    /// Guarded item write, with the item path form for index keys; the same
    /// capability mask gates it as for attribute writes.
    pub fn set_item(&self, state: &State, tx: &mut Transaction, ov: &OverrideTable, key: &Seg, value: Val) -> (r: Result<(), EngineError>)
        requires
            state.wf(),
        ensures
            ({
                let cpath = match key@ {
                    SegModel::Index(_) => spec_item_path(self.path_prefix@, crate::zones::seg_chars(key@)),
                    SegModel::Key(k) => spec_attr_path(self.path_prefix@, k),
                };
                if !spec_permitted(*self, cpath, true) {
                    r == Err::<(), EngineError>(EngineError::PermissionDenied) && *final(tx) == *old(tx)
                } else if !spec_has_cap(self.spec_guard_caps(table_model(ov.entries@), cpath), CAP_UPDATE) {
                    r == Err::<(), EngineError>(EngineError::PermissionDenied) && *final(tx) == *old(tx)
                } else if !self.has_tx
                    && !(crate::zones::spec_zone_of(crate::paths::spec_parse_path(cpath)) is Heavy) {
                    r == Err::<(), EngineError>(EngineError::NoActiveTransaction) && *final(tx) == *old(tx)
                } else {
                    spec_guard_written(*state, *old(tx), *final(tx), cpath, value@, r)
                }
            }),
    {
        let cpath = match key {
            Seg::Index(_) => {
                let ks = seg_string(key);
                item_path(&self.path_prefix, &ks)
            },
            Seg::Key(k) => attr_path(&self.path_prefix, k),
        };
        self.write_at(state, tx, ov, cpath, value)
    }

    /// Shared write path: permission check, effective-capability check,
    /// transaction check outside the Heavy zone, delta record with the prior
    /// state value, shadow write.
    fn write_at(&self, state: &State, tx: &mut Transaction, ov: &OverrideTable, cpath: String, value: Val) -> (r: Result<(), EngineError>)
        requires
            state.wf(),
        ensures
            !spec_permitted(*self, cpath@, true) ==> r == Err::<(), EngineError>(EngineError::PermissionDenied)
                && *final(tx) == *old(tx),
            (spec_permitted(*self, cpath@, true)
                && !spec_has_cap(self.spec_guard_caps(table_model(ov.entries@), cpath@), CAP_UPDATE))
                ==> r == Err::<(), EngineError>(EngineError::PermissionDenied) && *final(tx) == *old(tx),
            (spec_permitted(*self, cpath@, true)
                && spec_has_cap(self.spec_guard_caps(table_model(ov.entries@), cpath@), CAP_UPDATE)
                && !self.has_tx
                && !(crate::zones::spec_zone_of(crate::paths::spec_parse_path(cpath@)) is Heavy))
                ==> r == Err::<(), EngineError>(EngineError::NoActiveTransaction) && *final(tx) == *old(tx),
            (spec_permitted(*self, cpath@, true)
                && spec_has_cap(self.spec_guard_caps(table_model(ov.entries@), cpath@), CAP_UPDATE)
                && (self.has_tx
                    || crate::zones::spec_zone_of(crate::paths::spec_parse_path(cpath@)) is Heavy))
                ==> spec_guard_written(*state, *old(tx), *final(tx), cpath@, value@, r),
    {
        if !self.check_permissions(&cpath, true) {
            return Err(EngineError::PermissionDenied);
        }
        if !crate::zones::has_cap(self.guard_caps(ov, &cpath), CAP_UPDATE) {
            return Err(EngineError::PermissionDenied);
        }
        let segs = crate::paths::parse_path_segments(cpath.as_str());
        let zone = crate::zones::resolve_zone_segs(&segs);
        let heavy = match zone {
            crate::zones::ContextZone::Heavy => true,
            _ => false,
        };
        if !self.has_tx && !heavy {
            return Err(EngineError::NoActiveTransaction);
        }
        // the root value is shadowed; the write lands under it
        let root = crate::transaction::root_of(&cpath);
        let root_segs = crate::paths::parse_path_segments(root.as_str());
        proof {
            assert(path_model(root_segs@).skip(0) =~= path_model(root_segs@));
        }
        let live = match state.data.get_at_path(&root_segs, 0) {
            Some(v) => v.deep_copy(),
            None => {
                let e = Val::Dict(Vec::new());
                proof {
                    crate::value::lemma_dict_entries(e);
                    assert(e@->Dict_0 =~= Seq::<(Seq<char>, ValModel)>::empty());
                    assert(e@ =~~= ValModel::Dict(Seq::<(Seq<char>, ValModel)>::empty()));
                }
                e
            },
        };
        let ghost t0 = *tx;
        let token = tx.get_shadow(&live, &root);
        let ghost t_shadowed = *tx;
        proof {
            assert(path_model(segs@).skip(0) =~= path_model(segs@));
        }
        let old_val = match state.data.get_at_path(&segs, 0) {
            Some(v) => Some(v.deep_copy()),
            None => None,
        };
        tx.log_delta(cpath.clone(), old_val, Some(value.deep_copy()));
        let ghost t_logged = *tx;
        // write the sub-path below the root into the shadow's working copy
        let mut sub: Vec<Seg> = Vec::new();
        let mut i: usize = 1;
        while i < segs.len()
            invariant
                1 <= i <= segs@.len() || segs@.len() == 0,
                sub@.len() == (if segs@.len() == 0 { 0int } else { i - 1 }),
                forall|j: int| 0 <= j < sub@.len() ==> (#[trigger] sub@[j])@ == segs@[j + 1]@,
            decreases segs@.len() - i,
        {
            sub.push(crate::transaction::seg_copy(&segs[i]));
            i = i + 1;
        }
        proof {
            let segs_m = crate::paths::spec_parse_path(cpath@);
            if segs_m.len() > 0 {
                assert(path_model(sub@) =~= segs_m.drop_first());
            } else {
                assert(path_model(sub@) =~= segs_m);
            }
        }
        if token < tx.shadows.len() {
            let r = tx.shadow_write(token, &sub, value.deep_copy());
            proof {
                let segs_m = crate::paths::spec_parse_path(cpath@);
                let sub_m = if segs_m.len() > 0 { segs_m.drop_first() } else { segs_m };
                let root_m = crate::transaction::spec_root_of(cpath@);
                let live_m = match get_path(state.data@, crate::paths::spec_parse_path(root_m)) {
                    Some(v) => v,
                    None => ValModel::Dict(Seq::empty()),
                };
                let prior_m = get_path(state.data@, segs_m);
                let s0 = crate::transaction::shadows_model(t0.shadows@);
                let fi = crate::transaction::first_shadow(s0, root_m);
                let token_m: int = if fi < s0.len() { fi } else { s0.len() as int };
                let edited0 = if fi < s0.len() { s0[fi].edited } else { live_m };
                crate::transaction::lemma_first_shadow_range(s0, root_m);
                assert(token == token_m);
                assert(path_model(sub@) == sub_m);
                assert(t_logged.shadows@[token_m]@.edited == edited0);
                assert(spec_guard_written(*state, t0, *tx, cpath@, value@, r));
            }
            r
        } else {
            proof {
                assert(false);
            }
            Ok(())
        }
    }

    /// Whether the policy permits access to the path.
    pub fn check_permissions(&self, full_path: &String, is_write: bool) -> (r: bool)
        ensures
            r == spec_permitted(*self, full_path@, is_write),
    {
        if self.is_admin {
            return true;
        }
        if is_write {
            rules_cover(&self.outputs, full_path)
        } else {
            let a = rules_cover(&self.inputs, full_path);
            if a {
                true
            } else {
                rules_cover(&self.outputs, full_path)
            }
        }
    }
}

} // verus!
