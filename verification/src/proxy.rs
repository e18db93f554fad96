//! The supervisor proxy: the gatekeeper every read and write goes through.
//!
//! A proxy stands for one container inside a transaction's shadow tree. Reads
//! check the READ capability of the child path (a missing READ bit yields a
//! silent null, never an error); container children come back as new proxies
//! with recomputed capabilities. Writes check the capability the operation
//! needs, record a delta, and mutate the working copy. Every capability is
//! the intersection of the proxy's mask with the child path's physics (or its
//! registered override), with the admin bit widening everything except the
//! absolute Constant ceiling.
use vstd::prelude::*;
use crate::value::{Val, ValModel, dict_get, get_path, entries_model};
use crate::paths::{Seg, SegModel, path_model};
use crate::errors::EngineError;
use crate::zones::{OverrideTable, table_model, spec_has_cap, CAP_READ, CAP_APPEND, CAP_UPDATE, CAP_DELETE, CAP_ADMIN};
use crate::transaction::Transaction;

verus! {

/// Full capability mask: everything, admin included.
pub const CAP_FULL: u8 = 31;

/// Effective capability mask at a path: the proxy's mask intersected with
/// the path's override (or, absent one, its zone physics); the admin bit
/// widens to full except when the zone is an absolute ceiling, where neither
/// an override nor admin may widen the bare physics.
pub open spec fn spec_effective_caps(caps: u8, tbl: Seq<(Seq<char>, u8)>, path: Seq<char>) -> u8 {
    let zone = crate::zones::spec_zone_of(crate::paths::spec_parse_path(path));
    let phys = if crate::zones::spec_absolute_ceiling(zone) {
        crate::zones::spec_zone_physics(zone)
    } else {
        match crate::zones::spec_get_override(tbl, path) {
            Some(c) => c,
            None => crate::zones::spec_zone_physics(zone),
        }
    };
    if caps & CAP_ADMIN != 0 && !crate::zones::spec_absolute_ceiling(zone) {
        CAP_FULL
    } else {
        caps & phys
    }
}

/// Effective capability mask at a path; the doc comment on the spec form
/// holds: the override is consulted only below the absolute ceiling.
pub fn effective_caps(caps: u8, ov: &OverrideTable, path: &String) -> (r: u8)
    ensures
        r == spec_effective_caps(caps, table_model(ov.entries@), path@),
{
    let segs = crate::paths::parse_path_segments(path.as_str());
    let zone = crate::zones::resolve_zone_segs(&segs);
    let phys = if crate::zones::is_absolute_ceiling(&zone) {
        crate::zones::get_zone_physics(&zone)
    } else {
        match crate::zones::get_physics_override(ov, path.as_str()) {
            Some(c) => c,
            None => crate::zones::get_zone_physics(&zone),
        }
    };
    if crate::zones::has_cap(caps, CAP_ADMIN) && !crate::zones::is_absolute_ceiling(&zone) {
        CAP_FULL
    } else {
        caps & phys
    }
}

/// Child path for attribute access: `parent.name`, or `name` at the root.
pub open spec fn spec_attr_path(parent: Seq<char>, name: Seq<char>) -> Seq<char> {
    if parent.len() == 0 {
        name
    } else {
        parent + seq!['.'] + name
    }
}

/// Child path for item access: `parent[key]`.
pub open spec fn spec_item_path(parent: Seq<char>, key: Seq<char>) -> Seq<char> {
    parent + seq!['['] + key + seq![']']
}

/// Child path for attribute access.
pub fn attr_path(parent: &String, name: &String) -> (r: String)
    ensures
        r@ == spec_attr_path(parent@, name@),
{
    proof {
        reveal_strlit(".");
    }
    if parent.as_str().is_empty() {
        let r = name.clone();
        r
    } else {
        let mut r = parent.clone();
        r.append(".");
        r.append(name.as_str());
        proof {
            assert(r@ =~= parent@ + seq!['.'] + name@);
        }
        r
    }
}

/// Child path for item access.
pub fn item_path(parent: &String, key: &String) -> (r: String)
    ensures
        r@ == spec_item_path(parent@, key@),
{
    proof {
        reveal_strlit("[");
        reveal_strlit("]");
    }
    let mut r = parent.clone();
    r.append("[");
    r.append(key.as_str());
    r.append("]");
    proof {
        assert(r@ =~= parent@ + seq!['['] + key@ + seq![']']);
    }
    r
}

/// String form of an item key.
pub fn seg_string(seg: &Seg) -> (r: String)
    ensures
        r@ == crate::zones::seg_chars(seg@),
{
    match seg {
        Seg::Key(k) => k.clone(),
        Seg::Index(i) => crate::paths::usize_to_string(*i),
    }
}

/// Whether every element of the list is an integer.
pub open spec fn is_int_list(s: Seq<ValModel>) -> bool {
    forall|j: int| 0 <= j < s.len() ==> (#[trigger] s[j]) is Int
}

/// Model of an integer vector as list elements.
pub open spec fn ints_model(s: Seq<i64>) -> Seq<ValModel> {
    Seq::new(s.len(), |i: int| if 0 <= i < s.len() { ValModel::Int(s[i] as int) } else { ValModel::Null })
}

/// Insert an integer element into a run, after every element that is not
/// larger: equal elements keep their order.
pub open spec fn insert_int(sorted: Seq<ValModel>, e: ValModel) -> Seq<ValModel>
    decreases sorted.len(),
{
    if sorted.len() == 0 {
        seq![e]
    } else if sorted[0]->Int_0 <= e->Int_0 {
        seq![sorted[0]] + insert_int(sorted.drop_first(), e)
    } else {
        seq![e] + sorted
    }
}

/// Stable ascending sort of an integer list.
pub open spec fn sort_ints(s: Seq<ValModel>) -> Seq<ValModel>
    decreases s.len(),
{
    if s.len() == 0 {
        Seq::empty()
    } else {
        insert_int(sort_ints(s.drop_last()), s.last())
    }
}

/// Inserting at the first position whose element is larger is the stable
/// insert.
proof fn lemma_insert_int_at(s: Seq<ValModel>, e: ValModel, idx: int)
    requires
        0 <= idx <= s.len(),
        forall|j: int| 0 <= j < idx ==> (#[trigger] s[j])->Int_0 <= e->Int_0,
        idx < s.len() ==> s[idx]->Int_0 > e->Int_0,
    ensures
        insert_int(s, e) =~= s.take(idx) + seq![e] + s.skip(idx),
    decreases idx,
{
    if s.len() == 0 {
    } else if idx == 0 {
        assert(s.take(0) + seq![e] + s.skip(0) =~= seq![e] + s);
    } else {
        assert forall|j: int| 0 <= j < idx - 1 implies (#[trigger] s.drop_first()[j])->Int_0 <= e->Int_0 by {
            assert(s.drop_first()[j] == s[j + 1]);
        }
        lemma_insert_int_at(s.drop_first(), e, idx - 1);
        assert(s.drop_first().take(idx - 1) =~= s.take(idx).drop_first());
        assert(seq![s[0]] + (s.drop_first().take(idx - 1) + seq![e] + s.drop_first().skip(idx - 1))
            =~= s.take(idx) + seq![e] + s.skip(idx));
    }
}

/// Insert one integer into a run, after every element that is not larger.
fn insert_int_val(out: &mut Vec<i64>, e: i64)
    ensures
        ints_model(final(out)@) =~= insert_int(ints_model(old(out)@), ValModel::Int(e as int)),
{
    let ghost s0 = ints_model(out@);
    let mut idx: usize = 0;
    while idx < out.len() && out[idx] <= e
        invariant
            idx <= out@.len(),
            s0 == ints_model(out@),
            forall|j: int| 0 <= j < idx ==> (#[trigger] s0[j])->Int_0 <= e as int,
        decreases out@.len() - idx,
    {
        idx = idx + 1;
    }
    proof {
        lemma_insert_int_at(s0, ValModel::Int(e as int), idx as int);
    }
    out.insert(idx, e);
    proof {
        assert(ints_model(out@) =~= s0.take(idx as int) + seq![ValModel::Int(e as int)] + s0.skip(idx as int));
    }
}

/// Stable ascending insertion sort of integers.
fn sort_int_vals(v: Vec<i64>) -> (r: Vec<i64>)
    ensures
        ints_model(r@) == sort_ints(ints_model(v@)),
{
    let l = v.len();
    let ghost v0 = ints_model(v@);
    proof {
        assert(v0.len() == l);
    }
    let mut rest = v;
    let mut out: Vec<i64> = Vec::new();
    proof {
        assert(ints_model(out@) =~= sort_ints(v0.take(0)));
    }
    let mut i: usize = 0;
    while rest.len() > 0
        invariant
            i == v0.len() - rest@.len(),
            0 <= i <= v0.len(),
            v0.len() == l,
            ints_model(rest@) =~= v0.skip(i as int),
            ints_model(out@) == sort_ints(v0.take(i as int)),
        decreases rest@.len(),
    {
        let ghost prerest = rest@;
        let e = rest.remove(0);
        proof {
            assert(ints_model(prerest)[0] == ValModel::Int(prerest[0] as int));
            assert(ValModel::Int(e as int) == v0[i as int]);
            assert forall|k: int| 0 <= k < rest@.len() implies ints_model(rest@)[k] == v0.skip(i as int + 1)[k] by {
                assert(rest@[k] == prerest[k + 1]);
                assert(ints_model(prerest)[k + 1] == ValModel::Int(prerest[k + 1] as int));
                assert(ints_model(prerest)[k + 1] == v0.skip(i as int)[k + 1]);
            }
            assert(ints_model(rest@) =~= v0.skip(i as int + 1));
        }
        insert_int_val(&mut out, e);
        proof {
            assert(v0.take(i as int + 1).drop_last() =~= v0.take(i as int));
            assert(v0.take(i as int + 1).last() == v0[i as int]);
        }
        i = i + 1;
    }
    proof {
        assert(v0.take(v0.len() as int) =~= v0);
    }
    out
}

/// Lexicographic order on character sequences, by scalar value.
pub open spec fn lex_le(a: Seq<char>, b: Seq<char>) -> bool
    decreases a.len(),
{
    if a.len() == 0 {
        true
    } else if b.len() == 0 {
        false
    } else if a[0] != b[0] {
        (a[0] as int) < (b[0] as int)
    } else {
        lex_le(a.drop_first(), b.drop_first())
    }
}

/// Lexicographic comparison of two strings.
fn str_lex_le(a: &String, b: &String) -> (r: bool)
    ensures
        r == lex_le(a@, b@),
{
    let ac = crate::paths::str_to_chars(a.as_str());
    let bc = crate::paths::str_to_chars(b.as_str());
    proof {
        assert(a@.skip(0) =~= a@);
        assert(b@.skip(0) =~= b@);
    }
    let mut i: usize = 0;
    while i < ac.len() && i < bc.len()
        invariant
            i <= ac@.len(),
            i <= bc@.len(),
            ac@ == a@,
            bc@ == b@,
            forall|j: int| 0 <= j < i ==> a@[j] == b@[j],
            lex_le(a@, b@) == lex_le(a@.skip(i as int), b@.skip(i as int)),
        decreases ac@.len() - i,
    {
        let ghost ra = a@.skip(i as int);
        let ghost rb = b@.skip(i as int);
        proof {
            assert(ra[0] == a@[i as int]);
            assert(rb[0] == b@[i as int]);
            assert(ra.drop_first() =~= a@.skip(i as int + 1));
            assert(rb.drop_first() =~= b@.skip(i as int + 1));
        }
        if ac[i] != bc[i] {
            return ac[i] < bc[i];
        }
        i = i + 1;
    }
    proof {
        if i == ac@.len() {
            assert(a@.skip(i as int).len() == 0);
        } else {
            assert(b@.skip(i as int).len() == 0);
            assert(a@.skip(i as int).len() > 0);
        }
    }
    i == ac.len()
}

/// Whether every element of the list is a string.
pub open spec fn is_str_list(s: Seq<ValModel>) -> bool {
    forall|j: int| 0 <= j < s.len() ==> (#[trigger] s[j]) is Str
}

/// Model of a string vector as list elements.
pub open spec fn strs_vals(s: Seq<String>) -> Seq<ValModel> {
    Seq::new(s.len(), |i: int| if 0 <= i < s.len() { ValModel::Str(s[i]@) } else { ValModel::Null })
}

/// Insert a string element into a run, after every element that is not
/// lexicographically larger: equal elements keep their order.
pub open spec fn insert_str(sorted: Seq<ValModel>, e: ValModel) -> Seq<ValModel>
    decreases sorted.len(),
{
    if sorted.len() == 0 {
        seq![e]
    } else if lex_le(sorted[0]->Str_0, e->Str_0) {
        seq![sorted[0]] + insert_str(sorted.drop_first(), e)
    } else {
        seq![e] + sorted
    }
}

/// Stable ascending lexicographic sort of a string list.
pub open spec fn sort_strs(s: Seq<ValModel>) -> Seq<ValModel>
    decreases s.len(),
{
    if s.len() == 0 {
        Seq::empty()
    } else {
        insert_str(sort_strs(s.drop_last()), s.last())
    }
}

/// Inserting at the first position whose element is larger is the stable
/// insert.
proof fn lemma_insert_str_at(s: Seq<ValModel>, e: ValModel, idx: int)
    requires
        0 <= idx <= s.len(),
        forall|j: int| 0 <= j < idx ==> lex_le((#[trigger] s[j])->Str_0, e->Str_0),
        idx < s.len() ==> !lex_le(s[idx]->Str_0, e->Str_0),
    ensures
        insert_str(s, e) =~= s.take(idx) + seq![e] + s.skip(idx),
    decreases idx,
{
    if s.len() == 0 {
    } else if idx == 0 {
        assert(s.take(0) + seq![e] + s.skip(0) =~= seq![e] + s);
    } else {
        assert forall|j: int| 0 <= j < idx - 1 implies lex_le((#[trigger] s.drop_first()[j])->Str_0, e->Str_0) by {
            assert(s.drop_first()[j] == s[j + 1]);
        }
        lemma_insert_str_at(s.drop_first(), e, idx - 1);
        assert(s.drop_first().take(idx - 1) =~= s.take(idx).drop_first());
        assert(seq![s[0]] + (s.drop_first().take(idx - 1) + seq![e] + s.drop_first().skip(idx - 1))
            =~= s.take(idx) + seq![e] + s.skip(idx));
    }
}

/// Insert one string into a run, after every element that is not larger.
fn insert_str_val(out: &mut Vec<String>, e: String)
    ensures
        strs_vals(final(out)@) =~= insert_str(strs_vals(old(out)@), ValModel::Str(e@)),
{
    let ghost s0 = strs_vals(out@);
    let mut idx: usize = 0;
    while idx < out.len() && str_lex_le(&out[idx], &e)
        invariant
            idx <= out@.len(),
            s0 == strs_vals(out@),
            forall|j: int| 0 <= j < idx ==> lex_le((#[trigger] s0[j])->Str_0, e@),
        decreases out@.len() - idx,
    {
        idx = idx + 1;
    }
    proof {
        lemma_insert_str_at(s0, ValModel::Str(e@), idx as int);
    }
    out.insert(idx, e);
    proof {
        assert(strs_vals(out@) =~= s0.take(idx as int) + seq![ValModel::Str(out@[idx as int]@)] + s0.skip(idx as int));
    }
}

/// Stable ascending lexicographic insertion sort of strings.
fn sort_str_vals(v: Vec<String>) -> (r: Vec<String>)
    ensures
        strs_vals(r@) == sort_strs(strs_vals(v@)),
{
    let l = v.len();
    let ghost v0 = strs_vals(v@);
    proof {
        assert(v0.len() == l);
    }
    let mut rest = v;
    let mut out: Vec<String> = Vec::new();
    proof {
        assert(strs_vals(out@) =~= sort_strs(v0.take(0)));
    }
    let mut i: usize = 0;
    while rest.len() > 0
        invariant
            i == v0.len() - rest@.len(),
            0 <= i <= v0.len(),
            v0.len() == l,
            strs_vals(rest@) =~= v0.skip(i as int),
            strs_vals(out@) == sort_strs(v0.take(i as int)),
        decreases rest@.len(),
    {
        let ghost prerest = rest@;
        let e = rest.remove(0);
        proof {
            assert(strs_vals(prerest)[0] == ValModel::Str(prerest[0]@));
            assert(ValModel::Str(e@) == v0[i as int]);
            assert forall|k: int| 0 <= k < rest@.len() implies strs_vals(rest@)[k] == v0.skip(i as int + 1)[k] by {
                assert(rest@[k] == prerest[k + 1]);
                assert(strs_vals(prerest)[k + 1] == ValModel::Str(prerest[k + 1]@));
                assert(strs_vals(prerest)[k + 1] == v0.skip(i as int)[k + 1]);
            }
            assert(strs_vals(rest@) =~= v0.skip(i as int + 1));
        }
        insert_str_val(&mut out, e);
        proof {
            assert(v0.take(i as int + 1).drop_last() =~= v0.take(i as int));
            assert(v0.take(i as int + 1).last() == v0[i as int]);
        }
        i = i + 1;
    }
    proof {
        assert(v0.take(v0.len() as int) =~= v0);
    }
    out
}

/// What a mediated read hands back.
pub enum ReadOutcome {
    /// A scalar (or hidden) value, returned as is.
    Value(Val),
    /// A container, wrapped in a child proxy.
    Child(SupervisorProxy),
}

/// The gatekeeper for one container in the shadow tree.
pub struct SupervisorProxy {
    /// Full path of the wrapped container.
    pub path: String,
    /// Shadow entry the proxy addresses.
    pub token: usize,
    /// Path of the wrapped container relative to the shadow entry.
    pub rel: Vec<Seg>,
    /// Whether every write is refused (pure processes).
    pub read_only: bool,
    /// Whether a transaction is attached; no write happens without one.
    pub has_transaction: bool,
    /// Whether the proxy wraps a shadow working copy.
    pub is_shadow: bool,
    /// Capability bitmask of the proxy.
    pub capabilities: u8,
}

impl SupervisorProxy {
    /// The proxy addresses a live shadow entry.
    pub open spec fn valid(&self, tx: Transaction) -> bool {
        self.token < tx.shadows@.len()
    }

    /// The container the proxy wraps, inside the transaction.
    pub open spec fn spec_target(&self, tx: Transaction) -> Option<ValModel> {
        get_path(tx.shadows@[self.token as int].edited@, path_model(self.rel@))
    }

    /// A proxy over the shadow entry `token` at the given path.
    pub fn new(path: String, token: usize, read_only: bool, has_transaction: bool, is_shadow: bool, capabilities: u8) -> (r: SupervisorProxy)
        ensures
            r.path == path,
            r.token == token,
            r.rel@.len() == 0,
            r.read_only == read_only,
            r.has_transaction == has_transaction,
            r.is_shadow == is_shadow,
            r.capabilities == capabilities,
    {
        SupervisorProxy { path, token, rel: Vec::new(), read_only, has_transaction, is_shadow, capabilities }
    }

    /// Whether the value is a proxy (always: a hint for host code).
    pub fn is_proxy(&self) -> (r: bool)
        ensures
            r,
    {
        true
    }

    /// Replace the capability mask.
    pub fn set_capabilities(&mut self, caps: u8)
        ensures
            *final(self) == (SupervisorProxy { capabilities: caps, ..*old(self) }),
    {
        self.capabilities = caps;
    }

    /// Mediated attribute read. Structural introspection is refused (the
    /// attribute map is a security boundary) and other underscore names are
    /// unknown. Without the READ capability on the child path the read yields
    /// a silent null — a hidden path, not an error. A scalar child comes back
    /// as a value, a container child as a proxy with recomputed capabilities;
    /// a missing name is an error. Nothing in the session changes.
    pub fn get_attr(&self, tx: &Transaction, ov: &OverrideTable, name: &String) -> (r: Result<ReadOutcome, EngineError>)
        requires
            self.valid(*tx),
        ensures
            ({
                let cpath = spec_attr_path(self.path@, name@);
                let eff = spec_effective_caps(self.capabilities, table_model(ov.entries@), cpath);
                let crel = path_model(self.rel@).push(SegModel::Key(name@));
                if name@ == "__dict__"@ {
                    r == Err::<ReadOutcome, EngineError>(EngineError::PermissionDenied)
                } else if name@.len() > 0 && name@[0] == '_' {
                    r == Err::<ReadOutcome, EngineError>(EngineError::TypeError)
                } else if !spec_has_cap(eff, CAP_READ) {
                    r matches Ok(ReadOutcome::Value(v)) && v@ == ValModel::Null
                } else {
                    match get_path(tx.shadows@[self.token as int].edited@, crel) {
                        Some(v) => if v is Dict || v is List {
                            r matches Ok(ReadOutcome::Child(p)) && {
                                &&& p.path@ == cpath
                                &&& p.token == self.token
                                &&& path_model(p.rel@) == crel
                                &&& p.read_only == self.read_only
                                &&& p.has_transaction == self.has_transaction
                                &&& p.is_shadow
                                &&& p.capabilities == spec_effective_caps(self.capabilities, table_model(ov.entries@), cpath)
                            }
                        } else {
                            r matches Ok(ReadOutcome::Value(v2)) && v2@ == v
                        },
                        None => r == Err::<ReadOutcome, EngineError>(EngineError::TypeError),
                    }
                }
            }),
    {
        let dunder = crate::paths::str_to_chars("__dict__");
        let own = crate::paths::str_to_chars(name.as_str());
        if crate::paths::chars_eq(&own, &dunder) {
            return Err(EngineError::PermissionDenied);
        }
        if own.len() > 0 {
            if own[0] == '_' {
                return Err(EngineError::TypeError);
            }
        }
        let cpath = attr_path(&self.path, name);
        let eff = effective_caps(self.capabilities, ov, &cpath);
        if !crate::zones::has_cap(eff, CAP_READ) {
            return Ok(ReadOutcome::Value(Val::Null));
        }
        let mut crel = crate::transaction::segs_copy(&self.rel);
        crel.push(Seg::Key(name.clone()));
        proof {
            assert(path_model(crel@) =~= path_model(self.rel@).push(SegModel::Key(name@)));
        }
        match tx.shadow_read(self.token, &crel) {
            Some(v) => {
                if v.is_dict() || v.is_list() {
                    let caps = effective_caps(self.capabilities, ov, &cpath);
                    Ok(ReadOutcome::Child(SupervisorProxy {
                        path: cpath,
                        token: self.token,
                        rel: crel,
                        read_only: self.read_only,
                        has_transaction: self.has_transaction,
                        is_shadow: true,
                        capabilities: caps,
                    }))
                } else {
                    Ok(ReadOutcome::Value(v))
                }
            },
            None => Err(EngineError::TypeError),
        }
    }

    /// Mediated attribute write. A read-only proxy refuses with
    /// `PureProcessWrite`; a child path whose effective mask lacks UPDATE
    /// refuses with `PermissionDenied`; without a transaction nothing may be
    /// written. Otherwise the write is recorded in the delta log (old value
    /// included when the child exists) and applied to the working copy.
    pub fn set_attr(&self, tx: &mut Transaction, ov: &OverrideTable, name: &String, value: Val) -> (r: Result<(), EngineError>)
        requires
            self.valid(*old(tx)),
        ensures
            final(tx).shadows@.len() == old(tx).shadows@.len(),
            ({
                let cpath = spec_attr_path(self.path@, name@);
                let eff = spec_effective_caps(self.capabilities, table_model(ov.entries@), cpath);
                let crel = path_model(self.rel@).push(SegModel::Key(name@));
                let prior = get_path(old(tx).shadows@[self.token as int].edited@, crel);
                if self.read_only {
                    r == Err::<(), EngineError>(EngineError::PureProcessWrite) && *final(tx) == *old(tx)
                } else if !spec_has_cap(eff, CAP_UPDATE) {
                    r == Err::<(), EngineError>(EngineError::PermissionDenied) && *final(tx) == *old(tx)
                } else if !self.has_transaction {
                    r == Err::<(), EngineError>(EngineError::NoActiveTransaction) && *final(tx) == *old(tx)
                } else {
                    &&& final(tx).delta_log@.len() == old(tx).delta_log@.len() + 1
                    &&& final(tx).delta_log@.take(old(tx).delta_log@.len() as int) == old(tx).delta_log@
                    &&& ({
                        let e = final(tx).delta_log@.last()@;
                        &&& e.path_str == cpath
                        &&& e.op == crate::transaction::DeltaOp::Write
                        &&& e.value == Some(value@)
                        &&& e.old_value == prior
                    })
                    &&& (match crate::value::set_path(old(tx).shadows@[self.token as int].edited@, crel, value@) {
                        Ok(ne) => r is Ok && final(tx).shadows@[self.token as int].edited@ == ne,
                        Err(e) => r == Err::<(), EngineError>(e)
                            && final(tx).shadows@[self.token as int].edited@
                                == old(tx).shadows@[self.token as int].edited@,
                    })
                    &&& forall|j: int| 0 <= j < old(tx).shadows@.len() && j != self.token
                        ==> final(tx).shadows@[j] == old(tx).shadows@[j]
                }
            }),
    {
        if self.read_only {
            return Err(EngineError::PureProcessWrite);
        }
        let cpath = attr_path(&self.path, name);
        let eff = effective_caps(self.capabilities, ov, &cpath);
        if !crate::zones::has_cap(eff, CAP_UPDATE) {
            return Err(EngineError::PermissionDenied);
        }
        if !self.has_transaction {
            return Err(EngineError::NoActiveTransaction);
        }
        let mut crel = crate::transaction::segs_copy(&self.rel);
        crel.push(Seg::Key(name.clone()));
        proof {
            assert(path_model(crel@) =~= path_model(self.rel@).push(SegModel::Key(name@)));
        }
        let old_val = tx.shadow_read(self.token, &crel);
        tx.log_delta(cpath, old_val, Some(value.deep_copy()));
        tx.shadow_write(self.token, &crel, value)
    }

    /// Mediated item read (`container[key]`). The read capability is the
    /// effective mask of the child path (the proxy's mask against the path's
    /// override or zone physics). A hidden child yields a silent null;
    /// containers come back as child proxies.
    pub fn get_item(&self, tx: &Transaction, ov: &OverrideTable, key: &Seg) -> (r: Result<ReadOutcome, EngineError>)
        requires
            self.valid(*tx),
        ensures
            ({
                let cpath = spec_item_path(self.path@, crate::zones::seg_chars(key@));
                let eff = spec_effective_caps(self.capabilities, table_model(ov.entries@), cpath);
                let crel = path_model(self.rel@).push(key@);
                if !spec_has_cap(eff, CAP_READ) {
                    r matches Ok(ReadOutcome::Value(v)) && v@ == ValModel::Null
                } else {
                    match get_path(tx.shadows@[self.token as int].edited@, crel) {
                        Some(v) => if v is Dict || v is List {
                            r matches Ok(ReadOutcome::Child(p)) && {
                                &&& p.path@ == cpath
                                &&& p.token == self.token
                                &&& path_model(p.rel@) == crel
                                &&& p.read_only == self.read_only
                                &&& p.has_transaction == self.has_transaction
                                &&& p.is_shadow
                                &&& p.capabilities == spec_effective_caps(self.capabilities, table_model(ov.entries@), cpath)
                            }
                        } else {
                            r matches Ok(ReadOutcome::Value(v2)) && v2@ == v
                        },
                        None => r == Err::<ReadOutcome, EngineError>(EngineError::TypeError),
                    }
                }
            }),
    {
        let key_str = seg_string(key);
        let cpath = item_path(&self.path, &key_str);
        let eff = effective_caps(self.capabilities, ov, &cpath);
        if !crate::zones::has_cap(eff, CAP_READ) {
            return Ok(ReadOutcome::Value(Val::Null));
        }
        let mut crel = crate::transaction::segs_copy(&self.rel);
        crel.push(crate::transaction::seg_copy(key));
        proof {
            assert(path_model(crel@) =~= path_model(self.rel@).push(key@));
        }
        match tx.shadow_read(self.token, &crel) {
            Some(v) => {
                if v.is_dict() || v.is_list() {
                    let caps = effective_caps(self.capabilities, ov, &cpath);
                    Ok(ReadOutcome::Child(SupervisorProxy {
                        path: cpath,
                        token: self.token,
                        rel: crel,
                        read_only: self.read_only,
                        has_transaction: self.has_transaction,
                        is_shadow: true,
                        capabilities: caps,
                    }))
                } else {
                    Ok(ReadOutcome::Value(v))
                }
            },
            None => Err(EngineError::TypeError),
        }
    }

    /// Mediated item write (`container[key] = value`): read-only proxies and
    /// masks without UPDATE on the child path refuse; no write happens
    /// without a transaction; otherwise the write is logged and applied.
    pub fn set_item(&self, tx: &mut Transaction, ov: &OverrideTable, key: &Seg, value: Val) -> (r: Result<(), EngineError>)
        requires
            self.valid(*old(tx)),
        ensures
            final(tx).shadows@.len() == old(tx).shadows@.len(),
            ({
                let cpath = spec_item_path(self.path@, crate::zones::seg_chars(key@));
                let eff = spec_effective_caps(self.capabilities, table_model(ov.entries@), cpath);
                let crel = path_model(self.rel@).push(key@);
                let prior = get_path(old(tx).shadows@[self.token as int].edited@, crel);
                if self.read_only {
                    r == Err::<(), EngineError>(EngineError::PureProcessWrite) && *final(tx) == *old(tx)
                } else if !spec_has_cap(eff, CAP_UPDATE) {
                    r == Err::<(), EngineError>(EngineError::PermissionDenied) && *final(tx) == *old(tx)
                } else if !self.has_transaction {
                    r == Err::<(), EngineError>(EngineError::NoActiveTransaction) && *final(tx) == *old(tx)
                } else {
                    &&& final(tx).delta_log@.len() == old(tx).delta_log@.len() + 1
                    &&& final(tx).delta_log@.take(old(tx).delta_log@.len() as int) == old(tx).delta_log@
                    &&& ({
                        let e = final(tx).delta_log@.last()@;
                        &&& e.path_str == cpath
                        &&& e.op == crate::transaction::DeltaOp::Write
                        &&& e.value == Some(value@)
                        &&& e.old_value == prior
                    })
                    &&& (match crate::value::set_path(old(tx).shadows@[self.token as int].edited@, crel, value@) {
                        Ok(ne) => r is Ok && final(tx).shadows@[self.token as int].edited@ == ne,
                        Err(e) => r == Err::<(), EngineError>(e)
                            && final(tx).shadows@[self.token as int].edited@
                                == old(tx).shadows@[self.token as int].edited@,
                    })
                    &&& forall|j: int| 0 <= j < old(tx).shadows@.len() && j != self.token
                        ==> final(tx).shadows@[j] == old(tx).shadows@[j]
                }
            }),
    {
        if self.read_only {
            return Err(EngineError::PureProcessWrite);
        }
        let key_str = seg_string(key);
        let cpath = item_path(&self.path, &key_str);
        let eff = effective_caps(self.capabilities, ov, &cpath);
        if !crate::zones::has_cap(eff, CAP_UPDATE) {
            return Err(EngineError::PermissionDenied);
        }
        if !self.has_transaction {
            return Err(EngineError::NoActiveTransaction);
        }
        let mut crel = crate::transaction::segs_copy(&self.rel);
        crel.push(crate::transaction::seg_copy(key));
        proof {
            assert(path_model(crel@) =~= path_model(self.rel@).push(key@));
        }
        let old_val = tx.shadow_read(self.token, &crel);
        tx.log_delta(cpath, old_val, Some(value.deep_copy()));
        tx.shadow_write(self.token, &crel, value)
    }

    /// How a whole-container mutation lands in the session: the working copy
    /// at the proxy's path becomes `nc`, everything else is untouched, and
    /// with a transaction attached one delta records the post-mutation
    /// container at the proxy's path.
    pub open spec fn spec_container_write(&self, t0: Transaction, t1: Transaction, nc: ValModel) -> bool {
        &&& t1 == (Transaction { shadows: t1.shadows, delta_log: t1.delta_log, ..t0 })
        &&& t1.shadows@.len() == t0.shadows@.len()
        &&& (forall|j: int| 0 <= j < t0.shadows@.len() && j != self.token ==> t1.shadows@[j] == t0.shadows@[j])
        &&& ({
            let e0 = t0.shadows@[self.token as int];
            let e1 = t1.shadows@[self.token as int];
            &&& e1.path_str == e0.path_str
            &&& e1.segs == e0.segs
            &&& e1.pristine == e0.pristine
            &&& e1.aliased == e0.aliased
            &&& crate::value::place_at(e0.edited@, path_model(self.rel@), nc) == Ok::<ValModel, EngineError>(e1.edited@)
        })
        &&& (if self.has_transaction {
            &&& t1.delta_log@.len() == t0.delta_log@.len() + 1
            &&& t1.delta_log@.take(t0.delta_log@.len() as int) == t0.delta_log@
            &&& ({
                let e = t1.delta_log@.last()@;
                &&& e.path_str == self.path@
                &&& e.segs == crate::paths::spec_parse_path(self.path@)
                &&& e.op == crate::transaction::DeltaOp::Write
                &&& e.value == Some(nc)
                &&& e.old_value is None
            })
        } else {
            t1.delta_log == t0.delta_log
        })
    }

    /// Write the post-mutation container back and record it.
    fn write_container(&self, tx: &mut Transaction, nc: Val) -> (r: Result<(), EngineError>)
        requires
            self.valid(*old(tx)),
            get_path(old(tx).shadows@[self.token as int].edited@, path_model(self.rel@)) is Some,
        ensures
            r is Ok,
            self.spec_container_write(*old(tx), *final(tx), nc@),
    {
        proof {
            crate::value::lemma_set_path_at_existing(
                old(tx).shadows@[self.token as int].edited@,
                path_model(self.rel@),
                nc@,
            );
        }
        let copy = nc.deep_copy();
        let res = tx.shadow_write(self.token, &self.rel, nc);
        if self.has_transaction {
            tx.log_delta(self.path.clone(), None, Some(copy));
        }
        proof {
            assert(res is Ok);
        }
        Ok(())
    }

    /// Append one item: needs the APPEND capability, and a list target.
    pub fn append(&self, tx: &mut Transaction, item: Val) -> (r: Result<(), EngineError>)
        requires
            self.valid(*old(tx)),
        ensures
            ({
                let target = self.spec_target(*old(tx));
                if !spec_has_cap(self.capabilities, CAP_APPEND) {
                    r == Err::<(), EngineError>(EngineError::PermissionDenied) && *final(tx) == *old(tx)
                } else {
                    match target {
                        Some(t) => if t is List {
                            r is Ok && self.spec_container_write(*old(tx), *final(tx), ValModel::List(t->List_0.push(item@)))
                        } else {
                            r == Err::<(), EngineError>(EngineError::TypeError) && *final(tx) == *old(tx)
                        },
                        None => r == Err::<(), EngineError>(EngineError::TypeError) && *final(tx) == *old(tx),
                    }
                }
            }),
    {
        if !crate::zones::has_cap(self.capabilities, CAP_APPEND) {
            return Err(EngineError::PermissionDenied);
        }
        let target = match tx.shadow_read(self.token, &self.rel) {
            Some(v) => v,
            None => {
                return Err(EngineError::TypeError);
            },
        };
        let ghost tm = target@;
        if !target.is_list() {
            return Err(EngineError::TypeError);
        }
        proof {
            crate::value::lemma_list_elems(target);
        }
        let mut vs = match target {
            Val::List(vs) => vs,
            _ => {
                return Err(EngineError::TypeError);
            },
        };
        let ghost pre = crate::value::list_model(vs@);
        let ghost im = item@;
        vs.push(item);
        let nc = Val::List(vs);
        proof {
            crate::value::lemma_list_elems(nc);
            assert(crate::value::list_model(nc->List_0@) =~= pre.push(im));
            assert(nc@ =~~= ValModel::List(tm->List_0.push(im)));
        }
        self.write_container(tx, nc)
    }

    /// Append every element of a list: needs APPEND, a list target, and a
    /// list argument.
    pub fn extend(&self, tx: &mut Transaction, items: &Val) -> (r: Result<(), EngineError>)
        requires
            self.valid(*old(tx)),
        ensures
            ({
                let target = self.spec_target(*old(tx));
                if !spec_has_cap(self.capabilities, CAP_APPEND) {
                    r == Err::<(), EngineError>(EngineError::PermissionDenied) && *final(tx) == *old(tx)
                } else if !(items@ is List) {
                    r == Err::<(), EngineError>(EngineError::TypeError) && *final(tx) == *old(tx)
                } else {
                    match target {
                        Some(t) => if t is List {
                            r is Ok && self.spec_container_write(*old(tx), *final(tx), ValModel::List(t->List_0 + items@->List_0))
                        } else {
                            r == Err::<(), EngineError>(EngineError::TypeError) && *final(tx) == *old(tx)
                        },
                        None => r == Err::<(), EngineError>(EngineError::TypeError) && *final(tx) == *old(tx),
                    }
                }
            }),
    {
        if !crate::zones::has_cap(self.capabilities, CAP_APPEND) {
            return Err(EngineError::PermissionDenied);
        }
        let more = match items {
            Val::List(ms) => ms,
            _ => {
                return Err(EngineError::TypeError);
            },
        };
        proof {
            crate::value::lemma_list_elems(*items);
        }
        let target = match tx.shadow_read(self.token, &self.rel) {
            Some(v) => v,
            None => {
                return Err(EngineError::TypeError);
            },
        };
        let ghost tm = target@;
        if !target.is_list() {
            return Err(EngineError::TypeError);
        }
        proof {
            crate::value::lemma_list_elems(target);
        }
        let mut vs = match target {
            Val::List(vs) => vs,
            _ => {
                return Err(EngineError::TypeError);
            },
        };
        let ghost pre = crate::value::list_model(vs@);
        let mut i: usize = 0;
        while i < more.len()
            invariant
                i <= more@.len(),
                crate::value::list_model(more@) =~= items@->List_0,
                crate::value::list_model(vs@) =~= pre + items@->List_0.take(i as int),
            decreases more@.len() - i,
        {
            let ghost mid = crate::value::list_model(vs@);
            vs.push(more[i].deep_copy());
            i = i + 1;
            proof {
                assert(crate::value::list_model(vs@) =~= mid.push(items@->List_0[i as int - 1]));
                assert(pre + items@->List_0.take(i as int) =~= (pre + items@->List_0.take(i as int - 1)).push(items@->List_0[i as int - 1]));
            }
        }
        let nc = Val::List(vs);
        proof {
            crate::value::lemma_list_elems(nc);
            assert(items@->List_0.take(more@.len() as int) =~= items@->List_0);
            assert(crate::value::list_model(nc->List_0@) =~= pre + items@->List_0);
            assert(nc@ =~~= ValModel::List(tm->List_0 + items@->List_0));
        }
        self.write_container(tx, nc)
    }

    /// Insert an item at an index (clamped to the end): needs APPEND and a
    /// list target.
    pub fn insert(&self, tx: &mut Transaction, index: usize, item: Val) -> (r: Result<(), EngineError>)
        requires
            self.valid(*old(tx)),
        ensures
            ({
                let target = self.spec_target(*old(tx));
                if !spec_has_cap(self.capabilities, CAP_APPEND) {
                    r == Err::<(), EngineError>(EngineError::PermissionDenied) && *final(tx) == *old(tx)
                } else {
                    match target {
                        Some(t) => if t is List {
                            let at = if index <= t->List_0.len() {
                                index as int
                            } else {
                                t->List_0.len() as int
                            };
                            r is Ok && self.spec_container_write(*old(tx), *final(tx), ValModel::List(t->List_0.insert(at, item@)))
                        } else {
                            r == Err::<(), EngineError>(EngineError::TypeError) && *final(tx) == *old(tx)
                        },
                        None => r == Err::<(), EngineError>(EngineError::TypeError) && *final(tx) == *old(tx),
                    }
                }
            }),
    {
        if !crate::zones::has_cap(self.capabilities, CAP_APPEND) {
            return Err(EngineError::PermissionDenied);
        }
        let target = match tx.shadow_read(self.token, &self.rel) {
            Some(v) => v,
            None => {
                return Err(EngineError::TypeError);
            },
        };
        let ghost tm = target@;
        if !target.is_list() {
            return Err(EngineError::TypeError);
        }
        proof {
            crate::value::lemma_list_elems(target);
        }
        let mut vs = match target {
            Val::List(vs) => vs,
            _ => {
                return Err(EngineError::TypeError);
            },
        };
        let ghost pre = crate::value::list_model(vs@);
        let ghost im = item@;
        let at = if index <= vs.len() {
            index
        } else {
            vs.len()
        };
        vs.insert(at, item);
        let nc = Val::List(vs);
        proof {
            crate::value::lemma_list_elems(nc);
            assert(crate::value::list_model(nc->List_0@) =~= pre.insert(at as int, im));
            assert(nc@ =~~= ValModel::List(tm->List_0.insert(at as int, im)));
        }
        self.write_container(tx, nc)
    }

    /// Remove the first element equal to the value: needs DELETE and a list
    /// target; a value that is not present is a usage error.
    pub fn remove(&self, tx: &mut Transaction, value: &Val) -> (r: Result<(), EngineError>)
        requires
            self.valid(*old(tx)),
        ensures
            ({
                let target = self.spec_target(*old(tx));
                if !spec_has_cap(self.capabilities, CAP_DELETE) {
                    r == Err::<(), EngineError>(EngineError::PermissionDenied) && *final(tx) == *old(tx)
                } else {
                    match target {
                        Some(t) => if t is List {
                            if exists|j: int| 0 <= j < t->List_0.len() && t->List_0[j] == value@ {
                                r is Ok && ({
                                    let at = choose|j: int| 0 <= j < t->List_0.len() && t->List_0[j] == value@
                                        && forall|k: int| 0 <= k < j ==> t->List_0[k] != value@;
                                    self.spec_container_write(*old(tx), *final(tx), ValModel::List(t->List_0.remove(at)))
                                })
                            } else {
                                r == Err::<(), EngineError>(EngineError::Context) && *final(tx) == *old(tx)
                            }
                        } else {
                            r == Err::<(), EngineError>(EngineError::TypeError) && *final(tx) == *old(tx)
                        },
                        None => r == Err::<(), EngineError>(EngineError::TypeError) && *final(tx) == *old(tx),
                    }
                }
            }),
    {
        if !crate::zones::has_cap(self.capabilities, CAP_DELETE) {
            return Err(EngineError::PermissionDenied);
        }
        let target = match tx.shadow_read(self.token, &self.rel) {
            Some(v) => v,
            None => {
                return Err(EngineError::TypeError);
            },
        };
        let ghost tm = target@;
        if !target.is_list() {
            return Err(EngineError::TypeError);
        }
        proof {
            crate::value::lemma_list_elems(target);
        }
        let mut vs = match target {
            Val::List(vs) => vs,
            _ => {
                return Err(EngineError::TypeError);
            },
        };
        let ghost pre = crate::value::list_model(vs@);
        let mut i: usize = 0;
        while i < vs.len()
            invariant
                i <= vs@.len(),
                pre =~= crate::value::list_model(vs@),
                tm is List,
                tm->List_0 =~= pre,
                *tx == *old(tx),
                self.valid(*tx),
                tm == self.spec_target(*old(tx))->0,
                self.spec_target(*old(tx)) == Some(tm),
                spec_has_cap(self.capabilities, CAP_DELETE),
                forall|k: int| 0 <= k < i ==> pre[k] != value@,
            decreases vs@.len() - i,
        {
            if vs[i].deep_eq(value) {
                let ghost prevs = vs@;
                let _ = vs.remove(i);
                let nc = Val::List(vs);
                proof {
                    crate::value::lemma_list_elems(nc);
                    assert forall|k: int| 0 <= k < nc->List_0@.len() implies nc->List_0@[k]@ == pre.remove(i as int)[k] by {
                        if k < i {
                            assert(nc->List_0@[k] == prevs[k]);
                        } else {
                            assert(nc->List_0@[k] == prevs[k + 1]);
                        }
                    }
                    assert(crate::value::list_model(nc->List_0@) =~= pre.remove(i as int));
                    assert(nc@ =~~= ValModel::List(tm->List_0.remove(i as int)));
                    assert(0 <= i < tm->List_0.len() && tm->List_0[i as int] == value@
                        && forall|k: int| 0 <= k < i ==> tm->List_0[k] != value@);
                    let at = choose|j: int| 0 <= j < tm->List_0.len() && tm->List_0[j] == value@
                        && forall|k: int| 0 <= k < j ==> tm->List_0[k] != value@;
                    if at != i {
                        if at < i {
                            assert(tm->List_0[at] != value@);
                        } else {
                            assert(tm->List_0[i as int] != value@);
                        }
                        assert(false);
                    }
                }
                return self.write_container(tx, nc);
            }
            i = i + 1;
        }
        proof {
            assert(forall|j: int| 0 <= j < tm->List_0.len() ==> tm->List_0[j] != value@);
        }
        Err(EngineError::Context)
    }

    /// Reverse the list in place: needs UPDATE and a list target.
    pub fn reverse(&self, tx: &mut Transaction) -> (r: Result<(), EngineError>)
        requires
            self.valid(*old(tx)),
        ensures
            ({
                let target = self.spec_target(*old(tx));
                if !spec_has_cap(self.capabilities, CAP_UPDATE) {
                    r == Err::<(), EngineError>(EngineError::PermissionDenied) && *final(tx) == *old(tx)
                } else {
                    match target {
                        Some(t) => if t is List {
                            r is Ok && self.spec_container_write(*old(tx), *final(tx), ValModel::List(t->List_0.reverse()))
                        } else {
                            r == Err::<(), EngineError>(EngineError::TypeError) && *final(tx) == *old(tx)
                        },
                        None => r == Err::<(), EngineError>(EngineError::TypeError) && *final(tx) == *old(tx),
                    }
                }
            }),
    {
        if !crate::zones::has_cap(self.capabilities, CAP_UPDATE) {
            return Err(EngineError::PermissionDenied);
        }
        let target = match tx.shadow_read(self.token, &self.rel) {
            Some(v) => v,
            None => {
                return Err(EngineError::TypeError);
            },
        };
        let ghost tm = target@;
        if !target.is_list() {
            return Err(EngineError::TypeError);
        }
        proof {
            crate::value::lemma_list_elems(target);
        }
        let vs = match target {
            Val::List(vs) => vs,
            _ => {
                return Err(EngineError::TypeError);
            },
        };
        let ghost pre = crate::value::list_model(vs@);
        let mut out: Vec<Val> = Vec::new();
        let mut i = vs.len();
        while i > 0
            invariant
                i <= vs@.len(),
                pre =~= crate::value::list_model(vs@),
                out@.len() == vs@.len() - i,
                forall|k: int| 0 <= k < out@.len() ==> out@[k]@ == pre[vs@.len() - 1 - k],
            decreases i,
        {
            i = i - 1;
            out.push(vs[i].deep_copy());
        }
        let nc = Val::List(out);
        proof {
            crate::value::lemma_list_elems(nc);
            assert(crate::value::list_model(nc->List_0@) =~= pre.reverse());
            assert(nc@ =~~= ValModel::List(tm->List_0.reverse()));
        }
        self.write_container(tx, nc)
    }

    /// Sort a homogeneous list in place: needs UPDATE and a list target
    /// whose elements are all integers (sorted by value) or all strings
    /// (sorted lexicographically by character) — dynamic values of mixed
    /// kinds have no order, and sorting them is a usage error.
    pub fn sort(&self, tx: &mut Transaction) -> (r: Result<(), EngineError>)
        requires
            self.valid(*old(tx)),
        ensures
            ({
                let target = self.spec_target(*old(tx));
                if !spec_has_cap(self.capabilities, CAP_UPDATE) {
                    r == Err::<(), EngineError>(EngineError::PermissionDenied) && *final(tx) == *old(tx)
                } else {
                    match target {
                        Some(t) => if t is List && is_int_list(t->List_0) {
                            r is Ok && self.spec_container_write(*old(tx), *final(tx), ValModel::List(sort_ints(t->List_0)))
                        } else if t is List && is_str_list(t->List_0) {
                            r is Ok && self.spec_container_write(*old(tx), *final(tx), ValModel::List(sort_strs(t->List_0)))
                        } else {
                            r == Err::<(), EngineError>(EngineError::TypeError) && *final(tx) == *old(tx)
                        },
                        None => r == Err::<(), EngineError>(EngineError::TypeError) && *final(tx) == *old(tx),
                    }
                }
            }),
    {
        if !crate::zones::has_cap(self.capabilities, CAP_UPDATE) {
            return Err(EngineError::PermissionDenied);
        }
        let target = match tx.shadow_read(self.token, &self.rel) {
            Some(v) => v,
            None => {
                return Err(EngineError::TypeError);
            },
        };
        let ghost tm = target@;
        if !target.is_list() {
            return Err(EngineError::TypeError);
        }
        proof {
            crate::value::lemma_list_elems(target);
        }
        let vs = match target {
            Val::List(vs) => vs,
            _ => {
                return Err(EngineError::TypeError);
            },
        };
        let ghost pre = crate::value::list_model(vs@);
        proof {
            assert(tm->List_0 =~= pre);
        }
        let mut all_ints = true;
        let mut nums: Vec<i64> = Vec::new();
        let mut i: usize = 0;
        while i < vs.len() && all_ints
            invariant
                i <= vs@.len(),
                pre =~= crate::value::list_model(vs@),
                tm is List,
                tm->List_0 =~= pre,
                self.spec_target(*old(tx)) == Some(tm),
                spec_has_cap(self.capabilities, CAP_UPDATE),
                *tx == *old(tx),
                self.valid(*tx),
                all_ints ==> nums@.len() == i as int,
                all_ints ==> forall|j: int| 0 <= j < i ==> pre[j] == ValModel::Int(#[trigger] nums@[j] as int),
                !all_ints ==> !is_int_list(tm->List_0),
            decreases vs@.len() - i,
        {
            match &vs[i] {
                Val::Int(n) => {
                    nums.push(*n);
                },
                _ => {
                    proof {
                        assert(tm->List_0[i as int] == pre[i as int]);
                        assert(!(pre[i as int] is Int));
                        assert(!is_int_list(tm->List_0));
                    }
                    all_ints = false;
                },
            }
            i = i + 1;
        }
        if !all_ints {
            // fall back to a lexicographic pass over a string list
            let mut strs: Vec<String> = Vec::new();
            let mut t: usize = 0;
            while t < vs.len()
                invariant
                    t <= vs@.len(),
                    pre =~= crate::value::list_model(vs@),
                    tm is List,
                    tm->List_0 =~= pre,
                    !is_int_list(tm->List_0),
                    self.spec_target(*old(tx)) == Some(tm),
                    spec_has_cap(self.capabilities, CAP_UPDATE),
                    *tx == *old(tx),
                    self.valid(*tx),
                    strs@.len() == t as int,
                    forall|j: int| 0 <= j < t ==> pre[j] == ValModel::Str(#[trigger] strs@[j]@),
                decreases vs@.len() - t,
            {
                match &vs[t] {
                    Val::Str(w) => {
                        strs.push(w.clone());
                    },
                    _ => {
                        proof {
                            assert(tm->List_0[t as int] == pre[t as int]);
                            assert(!(pre[t as int] is Str));
                            assert(!is_str_list(tm->List_0));
                        }
                        return Err(EngineError::TypeError);
                    },
                }
                t = t + 1;
            }
            proof {
                assert forall|j: int| 0 <= j < tm->List_0.len() implies (#[trigger] tm->List_0[j]) is Str by {
                    assert(tm->List_0[j] == pre[j]);
                    assert(pre[j] == ValModel::Str(strs@[j]@));
                }
                assert(is_str_list(tm->List_0));
                assert(strs_vals(strs@) =~= tm->List_0);
            }
            let sorted = sort_str_vals(strs);
            let mut elems: Vec<Val> = Vec::new();
            let mut u: usize = 0;
            while u < sorted.len()
                invariant
                    u <= sorted@.len(),
                    elems@.len() == u as int,
                    forall|j: int| 0 <= j < u ==> (#[trigger] elems@[j])@ == strs_vals(sorted@)[j],
                decreases sorted@.len() - u,
            {
                elems.push(Val::Str(sorted[u].clone()));
                u = u + 1;
            }
            let nc = Val::List(elems);
            proof {
                crate::value::lemma_list_elems(nc);
                assert(crate::value::list_model(nc->List_0@) =~= strs_vals(sorted@));
                assert(nc@ =~~= ValModel::List(sort_strs(tm->List_0)));
            }
            return self.write_container(tx, nc);
        }
        proof {
            assert forall|j: int| 0 <= j < tm->List_0.len() implies (#[trigger] tm->List_0[j]) is Int by {
                assert(tm->List_0[j] == pre[j]);
                assert(pre[j] == ValModel::Int(nums@[j] as int));
            }
            assert(is_int_list(tm->List_0));
            assert(ints_model(nums@) =~= tm->List_0);
        }
        let sorted = sort_int_vals(nums);
        let mut elems: Vec<Val> = Vec::new();
        let mut t: usize = 0;
        while t < sorted.len()
            invariant
                t <= sorted@.len(),
                elems@.len() == t as int,
                forall|j: int| 0 <= j < t ==> (#[trigger] elems@[j])@ == ints_model(sorted@)[j],
            decreases sorted@.len() - t,
        {
            elems.push(Val::Int(sorted[t]));
            t = t + 1;
        }
        let nc = Val::List(elems);
        proof {
            crate::value::lemma_list_elems(nc);
            assert(crate::value::list_model(nc->List_0@) =~= ints_model(sorted@));
            assert(nc@ =~~= ValModel::List(sort_ints(tm->List_0)));
        }
        self.write_container(tx, nc)
    }

    /// Empty the container: refused for read-only proxies and without
    /// DELETE; works on a list or a dict target.
    pub fn clear(&self, tx: &mut Transaction) -> (r: Result<(), EngineError>)
        requires
            self.valid(*old(tx)),
        ensures
            ({
                let target = self.spec_target(*old(tx));
                if self.read_only {
                    r == Err::<(), EngineError>(EngineError::PureProcessWrite) && *final(tx) == *old(tx)
                } else if !spec_has_cap(self.capabilities, CAP_DELETE) {
                    r == Err::<(), EngineError>(EngineError::PermissionDenied) && *final(tx) == *old(tx)
                } else {
                    match target {
                        Some(t) => if t is List {
                            r is Ok && self.spec_container_write(*old(tx), *final(tx), ValModel::List(Seq::empty()))
                        } else if t is Dict {
                            r is Ok && self.spec_container_write(*old(tx), *final(tx), ValModel::Dict(Seq::empty()))
                        } else {
                            r == Err::<(), EngineError>(EngineError::TypeError) && *final(tx) == *old(tx)
                        },
                        None => r == Err::<(), EngineError>(EngineError::TypeError) && *final(tx) == *old(tx),
                    }
                }
            }),
    {
        if self.read_only {
            return Err(EngineError::PureProcessWrite);
        }
        if !crate::zones::has_cap(self.capabilities, CAP_DELETE) {
            return Err(EngineError::PermissionDenied);
        }
        let target = match tx.shadow_read(self.token, &self.rel) {
            Some(v) => v,
            None => {
                return Err(EngineError::TypeError);
            },
        };
        if target.is_list() {
            let nc = Val::List(Vec::new());
            proof {
                crate::value::lemma_list_elems(nc);
                assert(nc@->List_0 =~= Seq::<ValModel>::empty());
                assert(nc@ =~~= ValModel::List(Seq::<ValModel>::empty()));
            }
            return self.write_container(tx, nc);
        }
        if target.is_dict() {
            let nc = Val::Dict(Vec::new());
            proof {
                crate::value::lemma_dict_entries(nc);
                assert(nc@->Dict_0 =~= Seq::<(Seq<char>, ValModel)>::empty());
                assert(nc@ =~~= ValModel::Dict(Seq::<(Seq<char>, ValModel)>::empty()));
            }
            return self.write_container(tx, nc);
        }
        Err(EngineError::TypeError)
    }

    /// Remove and return an element. On a list target the index (default:
    /// the last element) must be in range. On a dict target the key must be
    /// given; a missing key returns the default if one was given and is a
    /// usage error otherwise. A list pop records the post-mutation container;
    /// a dict pop records the removed binding.
    pub fn pop(&self, tx: &mut Transaction, key_or_index: Option<&Seg>, default: Option<Val>) -> (r: Result<Val, EngineError>)
        requires
            self.valid(*old(tx)),
        ensures
            ({
                let target = self.spec_target(*old(tx));
                if self.read_only {
                    r == Err::<Val, EngineError>(EngineError::PureProcessWrite) && *final(tx) == *old(tx)
                } else if !spec_has_cap(self.capabilities, CAP_DELETE) {
                    r == Err::<Val, EngineError>(EngineError::PermissionDenied) && *final(tx) == *old(tx)
                } else {
                    match target {
                        Some(t) => if t is List {
                            let at: int = match key_or_index {
                                Some(seg) => match seg@ {
                                    SegModel::Index(i) => i,
                                    SegModel::Key(_) => -1,
                                },
                                None => t->List_0.len() - 1,
                            };
                            if 0 <= at < t->List_0.len() {
                                r matches Ok(v) && v@ == t->List_0[at]
                                    && self.spec_container_write(*old(tx), *final(tx), ValModel::List(t->List_0.remove(at)))
                            } else {
                                r is Err && *final(tx) == *old(tx)
                            }
                        } else if t is Dict {
                            match key_or_index {
                                Some(seg) => {
                                    let k = crate::zones::seg_chars(seg@);
                                    match dict_get(t->Dict_0, k) {
                                        Some(v) => {
                                            &&& r matches Ok(rv) && rv@ == v
                                            &&& final(tx).delta_log@.len() == old(tx).delta_log@.len() + 1
                                            &&& final(tx).delta_log@.take(old(tx).delta_log@.len() as int) == old(tx).delta_log@
                                            &&& ({
                                                let e = final(tx).delta_log@.last()@;
                                                &&& e.path_str == spec_attr_path(self.path@, k)
                                                &&& e.value is None
                                                &&& e.old_value == Some(v)
                                            })
                                            &&& (exists|at: int| 0 <= at < t->Dict_0.len() && t->Dict_0[at].0 == k
                                                && crate::value::place_at(
                                                    old(tx).shadows@[self.token as int].edited@,
                                                    path_model(self.rel@),
                                                    ValModel::Dict(t->Dict_0.remove(at)),
                                                ) == Ok::<ValModel, EngineError>(final(tx).shadows@[self.token as int].edited@))
                                        },
                                        None => match default {
                                            Some(d) => r matches Ok(rv) && rv@ == d@ && *final(tx) == *old(tx),
                                            None => r == Err::<Val, EngineError>(EngineError::Context) && *final(tx) == *old(tx),
                                        },
                                    }
                                },
                                None => r == Err::<Val, EngineError>(EngineError::TypeError) && *final(tx) == *old(tx),
                            }
                        } else {
                            r == Err::<Val, EngineError>(EngineError::TypeError) && *final(tx) == *old(tx)
                        },
                        None => r == Err::<Val, EngineError>(EngineError::TypeError) && *final(tx) == *old(tx),
                    }
                }
            }),
    {
        if self.read_only {
            return Err(EngineError::PureProcessWrite);
        }
        if !crate::zones::has_cap(self.capabilities, CAP_DELETE) {
            return Err(EngineError::PermissionDenied);
        }
        let target = match tx.shadow_read(self.token, &self.rel) {
            Some(v) => v,
            None => {
                return Err(EngineError::TypeError);
            },
        };
        let ghost tm = target@;
        if target.is_list() {
            proof {
                crate::value::lemma_list_elems(target);
            }
            let mut vs = match target {
                Val::List(vs) => vs,
                _ => {
                    return Err(EngineError::TypeError);
                },
            };
            let ghost pre = crate::value::list_model(vs@);
            let at: usize = match key_or_index {
                Some(seg) => match seg {
                    Seg::Index(i) => *i,
                    Seg::Key(_) => {
                        return Err(EngineError::TypeError);
                    },
                },
                None => {
                    if vs.len() == 0 {
                        return Err(EngineError::IndexError);
                    }
                    vs.len() - 1
                },
            };
            if at >= vs.len() {
                return Err(EngineError::IndexError);
            }
            let ghost prevs = vs@;
            let removed = vs.remove(at);
            let nc = Val::List(vs);
            proof {
                crate::value::lemma_list_elems(nc);
                assert forall|k: int| 0 <= k < nc->List_0@.len() implies nc->List_0@[k]@ == pre.remove(at as int)[k] by {
                    if k < at {
                        assert(nc->List_0@[k] == prevs[k]);
                    } else {
                        assert(nc->List_0@[k] == prevs[k + 1]);
                    }
                }
                assert(crate::value::list_model(nc->List_0@) =~= pre.remove(at as int));
                assert(nc@ =~~= ValModel::List(tm->List_0.remove(at as int)));
            }
            match self.write_container(tx, nc) {
                Ok(()) => Ok(removed),
                Err(e) => Err(e),
            }
        } else if target.is_dict() {
            proof {
                crate::value::lemma_dict_entries(target);
            }
            let mut es = match target {
                Val::Dict(es) => es,
                _ => {
                    return Err(EngineError::TypeError);
                },
            };
            let ghost pre = entries_model(es@);
            let key = match key_or_index {
                Some(Seg::Key(k)) => k.clone(),
                Some(Seg::Index(i)) => crate::paths::usize_to_string(*i),
                None => {
                    return Err(EngineError::TypeError);
                },
            };
            proof {
                assert(key@ == crate::zones::seg_chars(key_or_index->0@));
            }
            match crate::value::entries_find(&es, &key) {
                Some(at) => {
                    proof {
                        crate::value::lemma_dict_get_at(pre, key@, at as int);
                    }
                    let ghost prevs = es@;
                    let (_, old_v) = es.remove(at);
                    let cpath = attr_path(&self.path, &key);
                    tx.log_delta(cpath, Some(old_v.deep_copy()), None);
                    let nc = Val::Dict(es);
                    proof {
                        crate::value::lemma_dict_entries(nc);
                        assert forall|k: int| 0 <= k < nc->Dict_0@.len() implies entries_model(nc->Dict_0@)[k] == pre.remove(at as int)[k] by {
                            if k < at {
                                assert(nc->Dict_0@[k] == prevs[k]);
                            } else {
                                assert(nc->Dict_0@[k] == prevs[k + 1]);
                            }
                        }
                        assert(entries_model(nc->Dict_0@) =~= pre.remove(at as int));
                        assert(nc@ =~~= ValModel::Dict(tm->Dict_0.remove(at as int)));
                        crate::value::lemma_set_path_at_existing(
                            tx.shadows@[self.token as int].edited@,
                            path_model(self.rel@),
                            nc@,
                        );
                    }
                    match tx.shadow_write(self.token, &self.rel, nc) {
                        Ok(()) => Ok(old_v),
                        Err(e) => Err(e),
                    }
                },
                None => {
                    proof {
                        crate::value::lemma_dict_get_none(pre, key@);
                    }
                    match default {
                        Some(d) => Ok(d),
                        None => Err(EngineError::Context),
                    }
                },
            }
        } else {
            Err(EngineError::TypeError)
        }
    }

    /// Remove and return the most recently inserted binding of a dict
    /// target; the removed binding is recorded as a deletion.
    pub fn popitem(&self, tx: &mut Transaction) -> (r: Result<(String, Val), EngineError>)
        requires
            self.valid(*old(tx)),
        ensures
            ({
                let target = self.spec_target(*old(tx));
                if self.read_only {
                    r == Err::<(String, Val), EngineError>(EngineError::PureProcessWrite) && *final(tx) == *old(tx)
                } else if !spec_has_cap(self.capabilities, CAP_DELETE) {
                    r == Err::<(String, Val), EngineError>(EngineError::PermissionDenied) && *final(tx) == *old(tx)
                } else {
                    match target {
                        Some(t) => if t is Dict && t->Dict_0.len() > 0 {
                            let last = t->Dict_0.last();
                            &&& r matches Ok(kv) && kv.0@ == last.0 && kv.1@ == last.1
                            &&& final(tx).delta_log@.len() == old(tx).delta_log@.len() + 1
                            &&& final(tx).delta_log@.take(old(tx).delta_log@.len() as int) == old(tx).delta_log@
                            &&& ({
                                let e = final(tx).delta_log@.last()@;
                                &&& e.path_str == spec_attr_path(self.path@, last.0)
                                &&& e.value is None
                                &&& e.old_value == Some(last.1)
                            })
                            &&& crate::value::place_at(
                                old(tx).shadows@[self.token as int].edited@,
                                path_model(self.rel@),
                                ValModel::Dict(t->Dict_0.drop_last()),
                            ) == Ok::<ValModel, EngineError>(final(tx).shadows@[self.token as int].edited@)
                        } else if t is Dict {
                            r == Err::<(String, Val), EngineError>(EngineError::Context) && *final(tx) == *old(tx)
                        } else {
                            r == Err::<(String, Val), EngineError>(EngineError::TypeError) && *final(tx) == *old(tx)
                        },
                        None => r == Err::<(String, Val), EngineError>(EngineError::TypeError) && *final(tx) == *old(tx),
                    }
                }
            }),
    {
        if self.read_only {
            return Err(EngineError::PureProcessWrite);
        }
        if !crate::zones::has_cap(self.capabilities, CAP_DELETE) {
            return Err(EngineError::PermissionDenied);
        }
        let target = match tx.shadow_read(self.token, &self.rel) {
            Some(v) => v,
            None => {
                return Err(EngineError::TypeError);
            },
        };
        let ghost tm = target@;
        if !target.is_dict() {
            return Err(EngineError::TypeError);
        }
        proof {
            crate::value::lemma_dict_entries(target);
        }
        let mut es = match target {
            Val::Dict(es) => es,
            _ => {
                return Err(EngineError::TypeError);
            },
        };
        if es.len() == 0 {
            return Err(EngineError::Context);
        }
        let ghost pre = entries_model(es@);
        let ghost prevs = es@;
        let (k, v) = match es.pop() {
            Some(kv) => kv,
            None => {
                return Err(EngineError::Context);
            },
        };
        let cpath = attr_path(&self.path, &k);
        tx.log_delta(cpath, Some(v.deep_copy()), None);
        let nc = Val::Dict(es);
        proof {
            crate::value::lemma_dict_entries(nc);
            assert(entries_model(nc->Dict_0@) =~= pre.drop_last());
            assert(nc@ =~~= ValModel::Dict(tm->Dict_0.drop_last()));
            crate::value::lemma_set_path_at_existing(
                tx.shadows@[self.token as int].edited@,
                path_model(self.rel@),
                nc@,
            );
        }
        match tx.shadow_write(self.token, &self.rel, nc) {
            Ok(()) => Ok((k, v)),
            Err(e) => Err(e),
        }
    }

    /// Return the value under the key, binding (and recording) the default
    /// first when the key is missing.
    pub fn setdefault(&self, tx: &mut Transaction, key: &String, default: Val) -> (r: Result<Val, EngineError>)
        requires
            self.valid(*old(tx)),
        ensures
            ({
                let target = self.spec_target(*old(tx));
                if self.read_only {
                    r == Err::<Val, EngineError>(EngineError::PureProcessWrite) && *final(tx) == *old(tx)
                } else if !spec_has_cap(self.capabilities, CAP_UPDATE) {
                    r == Err::<Val, EngineError>(EngineError::PermissionDenied) && *final(tx) == *old(tx)
                } else {
                    match target {
                        Some(t) => if t is Dict {
                            match dict_get(t->Dict_0, key@) {
                                Some(v) => r matches Ok(rv) && rv@ == v && *final(tx) == *old(tx),
                                None => {
                                    &&& r matches Ok(rv) && rv@ == default@
                                    &&& final(tx).delta_log@.len() == old(tx).delta_log@.len() + 1
                                    &&& final(tx).delta_log@.take(old(tx).delta_log@.len() as int) == old(tx).delta_log@
                                    &&& ({
                                        let e = final(tx).delta_log@.last()@;
                                        &&& e.path_str == spec_attr_path(self.path@, key@)
                                        &&& e.value == Some(default@)
                                        &&& e.old_value is None
                                    })
                                    &&& crate::value::place_at(
                                        old(tx).shadows@[self.token as int].edited@,
                                        path_model(self.rel@),
                                        ValModel::Dict(t->Dict_0.push((key@, default@))),
                                    ) == Ok::<ValModel, EngineError>(final(tx).shadows@[self.token as int].edited@)
                                },
                            }
                        } else {
                            r == Err::<Val, EngineError>(EngineError::TypeError) && *final(tx) == *old(tx)
                        },
                        None => r == Err::<Val, EngineError>(EngineError::TypeError) && *final(tx) == *old(tx),
                    }
                }
            }),
    {
        if self.read_only {
            return Err(EngineError::PureProcessWrite);
        }
        if !crate::zones::has_cap(self.capabilities, CAP_UPDATE) {
            return Err(EngineError::PermissionDenied);
        }
        let target = match tx.shadow_read(self.token, &self.rel) {
            Some(v) => v,
            None => {
                return Err(EngineError::TypeError);
            },
        };
        let ghost tm = target@;
        if !target.is_dict() {
            return Err(EngineError::TypeError);
        }
        proof {
            crate::value::lemma_dict_entries(target);
        }
        let mut es = match target {
            Val::Dict(es) => es,
            _ => {
                return Err(EngineError::TypeError);
            },
        };
        let ghost pre = entries_model(es@);
        match crate::value::entries_find(&es, key) {
            Some(at) => {
                proof {
                    crate::value::lemma_dict_get_at(pre, key@, at as int);
                }
                Ok(es[at].1.deep_copy())
            },
            None => {
                proof {
                    crate::value::lemma_dict_get_none(pre, key@);
                }
                let cpath = attr_path(&self.path, key);
                tx.log_delta(cpath, None, Some(default.deep_copy()));
                let out = default.deep_copy();
                es.push((key.clone(), default));
                let nc = Val::Dict(es);
                proof {
                    crate::value::lemma_dict_entries(nc);
                    assert(entries_model(nc->Dict_0@) =~= pre.push((key@, out@)));
                    assert(nc@ =~~= ValModel::Dict(tm->Dict_0.push((key@, out@))));
                    crate::value::lemma_set_path_at_existing(
                        tx.shadows@[self.token as int].edited@,
                        path_model(self.rel@),
                        nc@,
                    );
                }
                match tx.shadow_write(self.token, &self.rel, nc) {
                    Ok(()) => Ok(out),
                    Err(e) => Err(e),
                }
            },
        }
    }

    /// Shallow dict update: every binding of the update dict is recorded
    /// (with the value it overwrites, when present) and then bound in order.
    pub fn update(&self, tx: &mut Transaction, other: &Val) -> (r: Result<(), EngineError>)
        requires
            self.valid(*old(tx)),
        ensures
            ({
                let target = self.spec_target(*old(tx));
                if self.read_only {
                    r == Err::<(), EngineError>(EngineError::PureProcessWrite) && *final(tx) == *old(tx)
                } else if !(other@ is Dict) {
                    r == Err::<(), EngineError>(EngineError::TypeError) && *final(tx) == *old(tx)
                } else if !spec_has_cap(self.capabilities, CAP_UPDATE) {
                    r == Err::<(), EngineError>(EngineError::PermissionDenied) && *final(tx) == *old(tx)
                } else {
                    match target {
                        Some(t) => if t is Dict {
                            &&& r is Ok
                            &&& final(tx).delta_log@.len() == old(tx).delta_log@.len() + other@->Dict_0.len()
                            &&& final(tx).delta_log@.take(old(tx).delta_log@.len() as int) == old(tx).delta_log@
                            &&& (forall|i: int| 0 <= i < other@->Dict_0.len() ==> {
                                let e = #[trigger] final(tx).delta_log@[old(tx).delta_log@.len() + i]@;
                                &&& e.path_str == spec_attr_path(self.path@, other@->Dict_0[i].0)
                                &&& e.value == Some(other@->Dict_0[i].1)
                                &&& e.old_value == dict_get(t->Dict_0, other@->Dict_0[i].0)
                            })
                            &&& crate::value::place_at(
                                old(tx).shadows@[self.token as int].edited@,
                                path_model(self.rel@),
                                ValModel::Dict(crate::transaction::set_all(t->Dict_0, other@->Dict_0)),
                            ) == Ok::<ValModel, EngineError>(final(tx).shadows@[self.token as int].edited@)
                        } else {
                            r == Err::<(), EngineError>(EngineError::TypeError) && *final(tx) == *old(tx)
                        },
                        None => r == Err::<(), EngineError>(EngineError::TypeError) && *final(tx) == *old(tx),
                    }
                }
            }),
    {
        if self.read_only {
            return Err(EngineError::PureProcessWrite);
        }
        let oes = match other {
            Val::Dict(oes) => oes,
            _ => {
                return Err(EngineError::TypeError);
            },
        };
        proof {
            crate::value::lemma_dict_entries(*other);
        }
        if !crate::zones::has_cap(self.capabilities, CAP_UPDATE) {
            return Err(EngineError::PermissionDenied);
        }
        let target = match tx.shadow_read(self.token, &self.rel) {
            Some(v) => v,
            None => {
                return Err(EngineError::TypeError);
            },
        };
        let ghost tm = target@;
        if !target.is_dict() {
            return Err(EngineError::TypeError);
        }
        proof {
            crate::value::lemma_dict_entries(target);
        }
        let mut es = match target {
            Val::Dict(es) => es,
            _ => {
                return Err(EngineError::TypeError);
            },
        };
        let ghost t0 = entries_model(es@);
        let ghost u0 = other@->Dict_0;
        let ghost log0 = old(tx).delta_log@;
        // record every binding against the pre-update container
        let mut i: usize = 0;
        while i < oes.len()
            invariant
                i <= oes@.len(),
                u0 =~= entries_model(oes@),
                t0 =~= entries_model(es@),
                t0 == tm->Dict_0,
                tm is Dict,
                self.valid(*tx),
                *tx == (Transaction { delta_log: tx.delta_log, ..*old(tx) }),
                tx.delta_log@.len() == log0.len() + i,
                tx.delta_log@.take(log0.len() as int) == log0,
                forall|j: int| 0 <= j < i ==> {
                    let e = #[trigger] tx.delta_log@[log0.len() + j]@;
                    &&& e.path_str == spec_attr_path(self.path@, u0[j].0)
                    &&& e.value == Some(u0[j].1)
                    &&& e.old_value == dict_get(tm->Dict_0, u0[j].0)
                },
            decreases oes@.len() - i,
        {
            let k = &oes[i].0;
            let v = &oes[i].1;
            let cpath = attr_path(&self.path, k);
            let old_val = match crate::value::entries_find(&es, k) {
                Some(at) => {
                    proof {
                        crate::value::lemma_dict_get_at(t0, k@, at as int);
                    }
                    Some(es[at].1.deep_copy())
                },
                None => {
                    proof {
                        crate::value::lemma_dict_get_none(t0, k@);
                    }
                    None
                },
            };
            let ghost logpre = tx.delta_log@;
            tx.log_delta(cpath, old_val, Some(v.deep_copy()));
            proof {
                assert(tx.delta_log@.take(log0.len() as int) =~= logpre.take(log0.len() as int));
                assert forall|j: int| 0 <= j < i + 1 implies {
                    let e = #[trigger] tx.delta_log@[log0.len() + j]@;
                    &&& e.path_str == spec_attr_path(self.path@, u0[j].0)
                    &&& e.value == Some(u0[j].1)
                    &&& e.old_value == dict_get(tm->Dict_0, u0[j].0)
                } by {
                    if j < i {
                        assert(tx.delta_log@[log0.len() + j] == logpre[log0.len() + j]);
                    }
                }
            }
            i = i + 1;
        }
        // then bind them all in order
        proof {
            assert(u0.skip(0) =~= u0);
        }
        let mut t: usize = 0;
        while t < oes.len()
            invariant
                t <= oes@.len(),
                u0 =~= entries_model(oes@),
                crate::transaction::set_all(tm->Dict_0, u0)
                    == crate::transaction::set_all(entries_model(es@), u0.skip(t as int)),
            decreases oes@.len() - t,
        {
            let ghost cur = entries_model(es@);
            let ghost rest = u0.skip(t as int);
            proof {
                assert(rest[0] == (oes@[t as int].0@, oes@[t as int].1@));
                assert(rest.drop_first() =~= u0.skip(t as int + 1));
            }
            crate::value::entries_set(&mut es, oes[t].0.clone(), oes[t].1.deep_copy());
            t = t + 1;
        }
        proof {
            assert(u0.skip(oes@.len() as int) =~= Seq::<(Seq<char>, ValModel)>::empty());
        }
        let nc = Val::Dict(es);
        proof {
            crate::value::lemma_dict_entries(nc);
            assert(nc@ =~~= ValModel::Dict(crate::transaction::set_all(tm->Dict_0, u0)));
            crate::value::lemma_set_path_at_existing(
                tx.shadows@[self.token as int].edited@,
                path_model(self.rel@),
                nc@,
            );
        }
        tx.shadow_write(self.token, &self.rel, nc)
    }

    /// The value under the key of a dict target, or the default (null when
    /// none was given); reads through `get` are not capability-checked.
    pub fn get(&self, tx: &Transaction, key: &String, default: Option<Val>) -> (r: Result<Val, EngineError>)
        requires
            self.valid(*tx),
        ensures
            ({
                let target = self.spec_target(*tx);
                match target {
                    Some(t) => if t is Dict {
                        match dict_get(t->Dict_0, key@) {
                            Some(v) => r matches Ok(rv) && rv@ == v,
                            None => match default {
                                Some(d) => r matches Ok(rv) && rv@ == d@,
                                None => r matches Ok(rv) && rv@ == ValModel::Null,
                            },
                        }
                    } else {
                        r == Err::<Val, EngineError>(EngineError::TypeError)
                    },
                    None => r == Err::<Val, EngineError>(EngineError::TypeError),
                }
            }),
    {
        let target = match tx.shadow_read(self.token, &self.rel) {
            Some(v) => v,
            None => {
                return Err(EngineError::TypeError);
            },
        };
        if !target.is_dict() {
            return Err(EngineError::TypeError);
        }
        proof {
            crate::value::lemma_dict_entries(target);
        }
        let es = match &target {
            Val::Dict(es) => es,
            _ => {
                return Err(EngineError::TypeError);
            },
        };
        match crate::value::entries_get(es, key) {
            Some(v) => Ok(v.deep_copy()),
            None => match default {
                Some(d) => Ok(d),
                None => Ok(Val::Null),
            },
        }
    }

    /// The keys of a dict target, in insertion order.
    pub fn keys(&self, tx: &Transaction) -> (r: Result<Vec<String>, EngineError>)
        requires
            self.valid(*tx),
        ensures
            ({
                let target = self.spec_target(*tx);
                match target {
                    Some(t) => if t is Dict {
                        r matches Ok(ks) && ks@.len() == t->Dict_0.len()
                            && forall|i: int| 0 <= i < ks@.len() ==> ks@[i]@ == t->Dict_0[i].0
                    } else {
                        r == Err::<Vec<String>, EngineError>(EngineError::TypeError)
                    },
                    None => r == Err::<Vec<String>, EngineError>(EngineError::TypeError),
                }
            }),
    {
        let target = match tx.shadow_read(self.token, &self.rel) {
            Some(v) => v,
            None => {
                return Err(EngineError::TypeError);
            },
        };
        if !target.is_dict() {
            return Err(EngineError::TypeError);
        }
        proof {
            crate::value::lemma_dict_entries(target);
        }
        let es = match &target {
            Val::Dict(es) => es,
            _ => {
                return Err(EngineError::TypeError);
            },
        };
        let mut out: Vec<String> = Vec::new();
        let mut i: usize = 0;
        while i < es.len()
            invariant
                i <= es@.len(),
                out@.len() == i as int,
                forall|j: int| 0 <= j < i ==> out@[j]@ == es@[j].0@,
            decreases es@.len() - i,
        {
            out.push(es[i].0.clone());
            i = i + 1;
        }
        Ok(out)
    }

    /// The entries of a dict target, in insertion order, as plain copies.
    pub fn items(&self, tx: &Transaction) -> (r: Result<Vec<(String, Val)>, EngineError>)
        requires
            self.valid(*tx),
        ensures
            ({
                let target = self.spec_target(*tx);
                match target {
                    Some(t) => if t is Dict {
                        r matches Ok(kvs) && entries_model(kvs@) =~= t->Dict_0
                    } else {
                        r == Err::<Vec<(String, Val)>, EngineError>(EngineError::TypeError)
                    },
                    None => r == Err::<Vec<(String, Val)>, EngineError>(EngineError::TypeError),
                }
            }),
    {
        let target = match tx.shadow_read(self.token, &self.rel) {
            Some(v) => v,
            None => {
                return Err(EngineError::TypeError);
            },
        };
        if !target.is_dict() {
            return Err(EngineError::TypeError);
        }
        proof {
            crate::value::lemma_dict_entries(target);
        }
        let es = match &target {
            Val::Dict(es) => es,
            _ => {
                return Err(EngineError::TypeError);
            },
        };
        Ok(crate::value::entries_copy(es))
    }

    /// The values of a dict target, in insertion order, as plain copies.
    pub fn values(&self, tx: &Transaction) -> (r: Result<Vec<Val>, EngineError>)
        requires
            self.valid(*tx),
        ensures
            ({
                let target = self.spec_target(*tx);
                match target {
                    Some(t) => if t is Dict {
                        r matches Ok(vs) && vs@.len() == t->Dict_0.len()
                            && forall|i: int| 0 <= i < vs@.len() ==> vs@[i]@ == t->Dict_0[i].1
                    } else {
                        r == Err::<Vec<Val>, EngineError>(EngineError::TypeError)
                    },
                    None => r == Err::<Vec<Val>, EngineError>(EngineError::TypeError),
                }
            }),
    {
        let target = match tx.shadow_read(self.token, &self.rel) {
            Some(v) => v,
            None => {
                return Err(EngineError::TypeError);
            },
        };
        if !target.is_dict() {
            return Err(EngineError::TypeError);
        }
        proof {
            crate::value::lemma_dict_entries(target);
        }
        let es = match &target {
            Val::Dict(es) => es,
            _ => {
                return Err(EngineError::TypeError);
            },
        };
        let mut out: Vec<Val> = Vec::new();
        let mut i: usize = 0;
        while i < es.len()
            invariant
                i <= es@.len(),
                out@.len() == i as int,
                forall|j: int| 0 <= j < i ==> out@[j]@ == es@[j].1@,
            decreases es@.len() - i,
        {
            out.push(es[i].1.deep_copy());
            i = i + 1;
        }
        Ok(out)
    }

    /// Length of the wrapped container: entries of a dict, elements of a
    /// list, characters of a string.
    pub fn len_of(&self, tx: &Transaction) -> (r: Result<usize, EngineError>)
        requires
            self.valid(*tx),
        ensures
            ({
                let target = self.spec_target(*tx);
                match target {
                    Some(t) => if t is Dict {
                        r == Ok::<usize, EngineError>(t->Dict_0.len() as usize)
                    } else if t is List {
                        r == Ok::<usize, EngineError>(t->List_0.len() as usize)
                    } else if t is Str {
                        r == Ok::<usize, EngineError>(t->Str_0.len() as usize)
                    } else {
                        r == Err::<usize, EngineError>(EngineError::TypeError)
                    },
                    None => r == Err::<usize, EngineError>(EngineError::TypeError),
                }
            }),
    {
        let target = match tx.shadow_read(self.token, &self.rel) {
            Some(v) => v,
            None => {
                return Err(EngineError::TypeError);
            },
        };
        match &target {
            Val::Dict(es) => {
                proof {
                    crate::value::lemma_dict_entries(target);
                }
                Ok(es.len())
            },
            Val::List(vs) => {
                proof {
                    crate::value::lemma_list_elems(target);
                }
                Ok(vs.len())
            },
            Val::Str(s) => {
                let cs = crate::paths::str_to_chars(s.as_str());
                Ok(cs.len())
            },
            _ => Err(EngineError::TypeError),
        }
    }

    /// Membership test: a key of a dict target, or an element of a list
    /// target equal to the value.
    pub fn contains(&self, tx: &Transaction, needle: &Val) -> (r: Result<bool, EngineError>)
        requires
            self.valid(*tx),
        ensures
            ({
                let target = self.spec_target(*tx);
                match target {
                    Some(t) => if t is Dict {
                        match needle@ {
                            ValModel::Str(k) => r == Ok::<bool, EngineError>(crate::value::dict_has_key(t->Dict_0, k)),
                            _ => r == Ok::<bool, EngineError>(false),
                        }
                    } else if t is List {
                        r == Ok::<bool, EngineError>(exists|j: int| 0 <= j < t->List_0.len() && t->List_0[j] == needle@)
                    } else {
                        r == Err::<bool, EngineError>(EngineError::TypeError)
                    },
                    None => r == Err::<bool, EngineError>(EngineError::TypeError),
                }
            }),
    {
        let target = match tx.shadow_read(self.token, &self.rel) {
            Some(v) => v,
            None => {
                return Err(EngineError::TypeError);
            },
        };
        let ghost tm = target@;
        match &target {
            Val::Dict(es) => {
                proof {
                    crate::value::lemma_dict_entries(target);
                }
                match needle {
                    Val::Str(k) => {
                        match crate::value::entries_find(es, k) {
                            Some(at) => {
                                proof {
                                    crate::value::lemma_dict_get_at(entries_model(es@), k@, at as int);
                                }
                                Ok(true)
                            },
                            None => {
                                proof {
                                    crate::value::lemma_dict_get_none(entries_model(es@), k@);
                                }
                                Ok(false)
                            },
                        }
                    },
                    _ => Ok(false),
                }
            },
            Val::List(vs) => {
                proof {
                    crate::value::lemma_list_elems(target);
                }
                let mut i: usize = 0;
                while i < vs.len()
                    invariant
                        i <= vs@.len(),
                        tm is List,
                        tm->List_0 =~= crate::value::list_model(vs@),
                        self.spec_target(*tx) == Some(tm),
                        forall|j: int| 0 <= j < i ==> tm->List_0[j] != needle@,
                    decreases vs@.len() - i,
                {
                    if vs[i].deep_eq(needle) {
                        proof {
                            assert(tm->List_0[i as int] == needle@);
                        }
                        return Ok(true);
                    }
                    i = i + 1;
                }
                Ok(false)
            },
            _ => Err(EngineError::TypeError),
        }
    }

    /// Copy of a dict target, as a plain value.
    pub fn to_dict(&self, tx: &Transaction) -> (r: Result<Val, EngineError>)
        requires
            self.valid(*tx),
        ensures
            ({
                let target = self.spec_target(*tx);
                match target {
                    Some(t) => if t is Dict {
                        r matches Ok(v) && v@ == t
                    } else {
                        r == Err::<Val, EngineError>(EngineError::TypeError)
                    },
                    None => r == Err::<Val, EngineError>(EngineError::TypeError),
                }
            }),
    {
        let target = match tx.shadow_read(self.token, &self.rel) {
            Some(v) => v,
            None => {
                return Err(EngineError::TypeError);
            },
        };
        if !target.is_dict() {
            return Err(EngineError::TypeError);
        }
        Ok(target)
    }

    /// Structural equality of the wrapped container against a plain value.
    pub fn eq_value(&self, tx: &Transaction, other: &Val) -> (r: Result<bool, EngineError>)
        requires
            self.valid(*tx),
        ensures
            match self.spec_target(*tx) {
                Some(t) => r == Ok::<bool, EngineError>(t == other@),
                None => r == Err::<bool, EngineError>(EngineError::TypeError),
            },
    {
        let target = match tx.shadow_read(self.token, &self.rel) {
            Some(v) => v,
            None => {
                return Err(EngineError::TypeError);
            },
        };
        Ok(target.deep_eq(other))
    }

    /// The wrapped working copy, as a plain value.
    pub fn supervisor_target(&self, tx: &Transaction) -> (r: Option<Val>)
        requires
            self.valid(*tx),
        ensures
            match r {
                Some(v) => self.spec_target(*tx) == Some(v@),
                None => self.spec_target(*tx) is None,
            },
    {
        match tx.shadows[self.token].edited.get_at_path(&self.rel, 0) {
            Some(v) => {
                proof {
                    assert(path_model(self.rel@).skip(0) =~= path_model(self.rel@));
                }
                Some(v.deep_copy())
            },
            None => {
                proof {
                    assert(path_model(self.rel@).skip(0) =~= path_model(self.rel@));
                }
                None
            },
        }
    }
}

} // verus!
