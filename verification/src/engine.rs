//! The engine: long-lived holder of the current [`State`], with
//! compare-and-swap, schema enforcement, the outbox, and transactions.
use vstd::prelude::*;
use crate::value::{Val, ValModel, dict_get, entries_model};
use crate::state::{State, klm_get, klm_model, updated_from, signal_model};
use crate::errors::EngineError;
use crate::conflict::ConflictManager;

verus! {

/// One side-effect message, emitted during a transaction and delivered to
/// the outbox worker only after a successful commit.
pub struct OutboxMsg {
    /// Routing topic of the message.
    pub topic: String,
    /// Payload carried to the worker.
    pub payload: Val,
}

/// Model of an outbox message.
pub struct OutboxMsgModel {
    pub topic: Seq<char>,
    pub payload: ValModel,
}

impl View for OutboxMsg {
    type V = OutboxMsgModel;

    open spec fn view(&self) -> OutboxMsgModel {
        OutboxMsgModel { topic: self.topic@, payload: self.payload@ }
    }
}

/// Model of a message vector.
pub open spec fn msgs_model(s: Seq<OutboxMsg>) -> Seq<OutboxMsgModel> {
    Seq::new(s.len(), |i: int| if 0 <= i < s.len() { s[i]@ } else { OutboxMsgModel { topic: Seq::empty(), payload: ValModel::Null } })
}

/// An ordered queue of side-effect messages.
pub struct OutboxCollector {
    /// The queued messages, oldest first.
    pub messages: Vec<OutboxMsg>,
}

impl OutboxCollector {
    /// An empty queue.
    pub fn new() -> (r: OutboxCollector)
        ensures
            r.messages@.len() == 0,
    {
        OutboxCollector { messages: Vec::new() }
    }

    /// Append one message at the back.
    pub fn add(&mut self, msg: OutboxMsg)
        ensures
            final(self).messages@ == old(self).messages@.push(msg),
    {
        self.messages.push(msg);
    }

    /// Take every queued message, oldest first, leaving the queue empty.
    pub fn drain(&mut self) -> (r: Vec<OutboxMsg>)
        ensures
            r@ == old(self).messages@,
            final(self).messages@.len() == 0,
    {
        let mut out: Vec<OutboxMsg> = Vec::new();
        std::mem::swap(&mut out, &mut self.messages);
        out
    }

    /// How many messages are queued.
    pub fn len(&self) -> (r: usize)
        ensures
            r == self.messages@.len(),
    {
        self.messages.len()
    }
}

/// Expected kind of a schema-checked top-level value.
#[derive(Debug, Clone, Copy, PartialEq, Eq, Structural)]
pub enum SchemaKind {
    /// Any value is accepted.
    Any,
    Bool,
    Int,
    Str,
    List,
    Dict,
}

/// Whether a value has the kind.
pub open spec fn spec_kind_matches(kind: SchemaKind, v: ValModel) -> bool {
    match kind {
        SchemaKind::Any => true,
        SchemaKind::Bool => v is Bool,
        SchemaKind::Int => v is Int,
        SchemaKind::Str => v is Str,
        SchemaKind::List => v is List,
        SchemaKind::Dict => v is Dict,
    }
}

/// A declarative schema over the top level of the data tree: each named key
/// must be present and carry the declared kind.
pub struct Schema {
    /// Required key names with their expected kinds.
    pub required: Vec<(String, SchemaKind)>,
}

/// Whether the data tree satisfies the schema.
pub open spec fn spec_schema_ok(required: Seq<(String, SchemaKind)>, data: ValModel) -> bool {
    &&& data is Dict
    &&& forall|i: int| 0 <= i < required.len() ==> (match dict_get(data->Dict_0, #[trigger] required[i].0@) {
        Some(v) => spec_kind_matches(required[i].1, v),
        None => false,
    })
}

impl Schema {
    /// A schema with the given requirements.
    pub fn new(required: Vec<(String, SchemaKind)>) -> (r: Schema)
        ensures
            r.required == required,
    {
        Schema { required }
    }

    /// Check the data tree: every required key present with its kind.
    pub fn validate(&self, data: &Val) -> (r: bool)
        ensures
            r == spec_schema_ok(self.required@, data@),
    {
        let es = match data {
            Val::Dict(es) => es,
            _ => {
                return false;
            },
        };
        proof {
            crate::value::lemma_dict_entries(*data);
        }
        let mut i: usize = 0;
        while i < self.required.len()
            invariant
                i <= self.required@.len(),
                *data is Dict,
                entries_model(es@) =~= data@->Dict_0,
                forall|j: int| 0 <= j < i ==> (match dict_get(data@->Dict_0, #[trigger] self.required@[j].0@) {
                    Some(v) => spec_kind_matches(self.required@[j].1, v),
                    None => false,
                }),
            decreases self.required@.len() - i,
        {
            let (name, kind) = &self.required[i];
            match crate::value::entries_get(es, name) {
                Some(v) => {
                    let ok = match (kind, v) {
                        (SchemaKind::Any, _) => true,
                        (SchemaKind::Bool, Val::Bool(_)) => true,
                        (SchemaKind::Int, Val::Int(_)) => true,
                        (SchemaKind::Str, Val::Str(_)) => true,
                        (SchemaKind::List, Val::List(_)) => true,
                        (SchemaKind::Dict, Val::Dict(_)) => true,
                        _ => false,
                    };
                    if !ok {
                        return false;
                    }
                },
                None => {
                    return false;
                },
            }
            i = i + 1;
        }
        true
    }
}

/// Whether one delta entry is safe to merge over the expected version: for a
/// dict value every stamped `key.field` must not be newer than expected; for
/// any other value the stamped `key` itself must not be newer.
pub open spec fn cas_entry_safe(klm: Seq<(Seq<char>, u64)>, key: Seq<char>, v: ValModel, expected: u64) -> bool {
    if v is Dict {
        forall|j: int| 0 <= j < v->Dict_0.len() ==> (match klm_get(klm, key + seq!['.'] + #[trigger] v->Dict_0[j].0) {
            Some(ver) => ver <= expected,
            None => true,
        })
    } else {
        match klm_get(klm, key) {
            Some(ver) => ver <= expected,
            None => true,
        }
    }
}

/// Whether a whole dict delta is safe to merge over the expected version.
pub open spec fn cas_delta_safe(klm: Seq<(Seq<char>, u64)>, es: Seq<(Seq<char>, ValModel)>, expected: u64) -> bool {
    forall|i: int| 0 <= i < es.len() ==> cas_entry_safe(klm, #[trigger] es[i].0, es[i].1, expected)
}

/// Whether an optional delta is safe: absent or non-dict deltas carry no keys.
pub open spec fn cas_opt_safe(klm: Seq<(Seq<char>, u64)>, d: Option<ValModel>, expected: u64) -> bool {
    match d {
        Some(dm) => if dm is Dict {
            cas_delta_safe(klm, dm->Dict_0, expected)
        } else {
            true
        },
        None => true,
    }
}

/// Field-level safety check of one delta dict against the version map.
fn cas_check_delta(klm: &Vec<(String, u64)>, delta: &Val, expected: u64) -> (r: bool)
    requires
        *delta is Dict,
    ensures
        r == cas_delta_safe(klm_model(klm@), delta@->Dict_0, expected),
{
    let es = match delta {
        Val::Dict(es) => es,
        _ => {
            proof {
                assert(false);
            }
            return true;
        },
    };
    proof {
        crate::value::lemma_dict_entries(*delta);
    }
    let ghost d0 = delta@->Dict_0;
    let mut i: usize = 0;
    while i < es.len()
        invariant
            i <= es@.len(),
            *delta == Val::Dict(*es),
            d0 =~= entries_model(es@),
            d0 == delta@->Dict_0,
            forall|j: int| 0 <= j < i ==> cas_entry_safe(klm_model(klm@), #[trigger] d0[j].0, d0[j].1, expected),
        decreases es@.len() - i,
    {
        let key = &es[i].0;
        match &es[i].1 {
            Val::Dict(fs) => {
                proof {
                    crate::value::lemma_dict_entries(es@[i as int].1);
                    assert(entries_model(fs@) =~= es@[i as int].1@->Dict_0);
                }
                let mut j: usize = 0;
                while j < fs.len()
                    invariant
                        j <= fs@.len(),
                        entries_model(fs@) =~= es@[i as int].1@->Dict_0,
                        i < es@.len(),
                        key@ == es@[i as int].0@,
                        es@[i as int].1 is Dict,
                        d0 =~= entries_model(es@),
                        d0 == delta@->Dict_0,
                        forall|t: int| 0 <= t < j ==> (match klm_get(klm_model(klm@), es@[i as int].0@ + seq!['.'] + #[trigger] es@[i as int].1@->Dict_0[t].0) {
                            Some(ver) => ver <= expected,
                            None => true,
                        }),
                    decreases fs@.len() - j,
                {
                    let mut field_path = key.clone();
                    field_path.append(".");
                    field_path.append(fs[j].0.as_str());
                    proof {
                        reveal_strlit(".");
                        assert(field_path@ =~= es@[i as int].0@ + seq!['.'] + es@[i as int].1@->Dict_0[j as int].0);
                    }
                    match crate::state::klm_lookup(klm, &field_path) {
                        Some(ver) => {
                            if ver > expected {
                                proof {
                                    assert(d0[i as int].1->Dict_0 =~= es@[i as int].1@->Dict_0);
                                    assert(klm_get(klm_model(klm@), d0[i as int].0 + seq!['.'] + d0[i as int].1->Dict_0[j as int].0) == Some(ver));
                                    assert(!cas_entry_safe(klm_model(klm@), d0[i as int].0, d0[i as int].1, expected));
                                    assert(!cas_delta_safe(klm_model(klm@), d0, expected));
                                }
                                return false;
                            }
                        },
                        None => {},
                    }
                    j = j + 1;
                }
                proof {
                    assert(cas_entry_safe(klm_model(klm@), d0[i as int].0, d0[i as int].1, expected));
                }
            },
            _ => {
                match crate::state::klm_lookup(klm, key) {
                    Some(ver) => {
                        if ver > expected {
                            proof {
                                assert(!cas_entry_safe(klm_model(klm@), d0[i as int].0, d0[i as int].1, expected));
                            }
                            return false;
                        }
                    },
                    None => {},
                }
                proof {
                    assert(cas_entry_safe(klm_model(klm@), d0[i as int].0, d0[i as int].1, expected));
                }
            },
        }
        i = i + 1;
    }
    true
}

/// Long-lived holder of the current state.
pub struct TheusEngine {
    /// The current immutable snapshot.
    pub state: State,
    /// Messages flushed by committed transactions, awaiting the worker.
    pub outbox: OutboxCollector,
    /// Whether an outbox worker is attached; without one, processing the
    /// outbox leaves the queue alone.
    pub worker_attached: bool,
    /// Whether the host attached an audit sink; the sink itself lives with
    /// the host.
    pub audit_attached: bool,
    /// Schema every committed data tree must satisfy, when attached.
    pub schema: Option<Schema>,
    /// Whether guards refuse inputs from restricted control zones.
    pub strict_guards: bool,
    /// Whether compare-and-swap demands the exact expected version.
    pub strict_cas: bool,
    /// Per-actor retry accounting.
    pub conflict: ConflictManager,
}

impl TheusEngine {
    /// A fresh engine: empty state at version zero, empty outbox, no worker,
    /// no schema, both strict switches off, default conflict budgets.
    pub fn new() -> (r: TheusEngine)
        ensures
            r.state.wf(),
            r.state.version == 0,
            r.state.data@ is Dict && r.state.data@->Dict_0.len() == 0,
            r.state.heavy@ is Dict && r.state.heavy@->Dict_0.len() == 0,
            r.state.signal@.len() == 0,
            klm_model(r.state.key_last_modified@).len() == 0,
            r.state.signal_cap == 1000,
            r.outbox.messages@.len() == 0,
            !r.worker_attached,
            !r.audit_attached,
            r.schema is None,
            !r.strict_guards,
            !r.strict_cas,
            r.conflict.max_retries == 5,
            r.conflict.cooldown_budget == 2,
            klm_model(r.conflict.counters@).len() == 0,
            r.conflict.ticket is None,
    {
        TheusEngine {
            state: State::empty(),
            outbox: OutboxCollector::new(),
            worker_attached: false,
            audit_attached: false,
            schema: None,
            strict_guards: false,
            strict_cas: false,
            conflict: ConflictManager::new(5, 2),
        }
    }

    /// Attach a schema that every later commit must satisfy.
    pub fn set_schema(&mut self, schema: Schema)
        ensures
            *final(self) == (TheusEngine { schema: Some(schema), ..*old(self) }),
    {
        self.schema = Some(schema);
    }

    /// Switch strict guard checking on or off.
    pub fn set_strict_guards(&mut self, enabled: bool)
        ensures
            *final(self) == (TheusEngine { strict_guards: enabled, ..*old(self) }),
    {
        self.strict_guards = enabled;
    }

    /// Switch strict compare-and-swap on or off.
    pub fn set_strict_cas(&mut self, enabled: bool)
        ensures
            *final(self) == (TheusEngine { strict_cas: enabled, ..*old(self) }),
    {
        self.strict_cas = enabled;
    }

    /// Mark an audit sink as attached; recording to it is the host's work.
    pub fn set_audit_system(&mut self)
        ensures
            *final(self) == (TheusEngine { audit_attached: true, ..*old(self) }),
    {
        self.audit_attached = true;
    }

    /// Mark an outbox worker as attached; the host delivers what
    /// [`TheusEngine::process_outbox`] hands back.
    pub fn attach_worker(&mut self)
        ensures
            *final(self) == (TheusEngine { worker_attached: true, ..*old(self) }),
    {
        self.worker_attached = true;
    }

    /// The current state.
    pub fn state(&self) -> (r: &State)
        ensures
            r == self.state,
    {
        &self.state
    }

    /// Swap in a new current state.
    pub fn commit_state(&mut self, state: State)
        ensures
            *final(self) == (TheusEngine { state: state, ..*old(self) }),
    {
        self.state = state;
    }

    /// Record a conflict for the actor and return its retry decision.
    pub fn report_conflict(&mut self, actor: String) -> (r: crate::conflict::RetryDecision)
        ensures
            klm_model(final(self).conflict.counters@) == crate::state::klm_set(
                klm_model(old(self).conflict.counters@),
                actor@,
                crate::conflict::spec_bumped(klm_model(old(self).conflict.counters@), actor@),
            ),
            r == crate::conflict::spec_decision(
                crate::conflict::spec_bumped(klm_model(old(self).conflict.counters@), actor@),
                old(self).conflict.max_retries,
                old(self).conflict.cooldown_budget,
            ),
            final(self).state == old(self).state,
            final(self).outbox == old(self).outbox,
    {
        self.conflict.report_conflict(actor)
    }

    /// Forget an actor's conflicts after a success.
    pub fn report_success(&mut self, actor: String)
        ensures
            klm_model(final(self).conflict.counters@) == crate::state::klm_set(klm_model(old(self).conflict.counters@), actor@, 0),
            final(self).state == old(self).state,
            final(self).outbox == old(self).outbox,
    {
        self.conflict.report_success(actor)
    }

    /// Hand the queued messages to the host for delivery, oldest first; with
    /// no worker attached nothing happens and the queue is kept.
    pub fn process_outbox(&mut self) -> (r: Vec<OutboxMsg>)
        ensures
            old(self).worker_attached ==> r@ == old(self).outbox.messages@ && final(self).outbox.messages@.len() == 0,
            !old(self).worker_attached ==> r@.len() == 0 && final(self).outbox == old(self).outbox,
            final(self).state == old(self).state,
            final(self).worker_attached == old(self).worker_attached,
            final(self).audit_attached == old(self).audit_attached,
            final(self).schema == old(self).schema,
            final(self).strict_guards == old(self).strict_guards,
            final(self).strict_cas == old(self).strict_cas,
            final(self).conflict == old(self).conflict,
    {
        if !self.worker_attached {
            return Vec::new();
        }
        self.outbox.drain()
    }

    /// Open a write session with the given timeout.
    pub fn transaction(&self, write_timeout_ms: u64) -> (r: crate::transaction::Transaction)
        ensures
            r.wf(),
            r.pending_data@ is Dict && r.pending_data@->Dict_0.len() == 0,
            r.pending_heavy@ is Dict && r.pending_heavy@->Dict_0.len() == 0,
            r.pending_signal@.len() == 0,
            r.pending_outbox.messages@.len() == 0,
            r.start_ms is None,
            r.write_timeout_ms == write_timeout_ms,
            r.delta_log@.len() == 0,
            r.shadows@.len() == 0,
            !r.shadows_inferred,
    {
        crate::transaction::Transaction::new(write_timeout_ms)
    }

    /// Optimistic merge with field-level conflict detection. A requester shut
    /// out by the priority ticket fails `SystemBusy`. A version mismatch
    /// fails `StrictCasMismatch` in strict mode; in smart mode the merge
    /// proceeds exactly when no touched key (`key.field` for dict deltas,
    /// `key` otherwise) was stamped after the expected version, else it fails
    /// `CasConflict`. A merge that breaks the attached schema fails
    /// `SchemaViolation` without a swap. On success the state advances one
    /// version with the deltas merged in.
    pub fn compare_and_swap(
        &mut self,
        expected_version: u64,
        data: Option<&Val>,
        heavy: Option<&Val>,
        signal: Option<&Vec<Val>>,
        requester: Option<&String>,
    ) -> (r: Result<(), EngineError>)
        requires
            old(self).state.wf(),
            old(self).state.version < u64::MAX,
        ensures
            final(self).outbox == old(self).outbox,
            final(self).worker_attached == old(self).worker_attached,
            final(self).audit_attached == old(self).audit_attached,
            final(self).schema == old(self).schema,
            final(self).strict_guards == old(self).strict_guards,
            final(self).strict_cas == old(self).strict_cas,
            final(self).conflict == old(self).conflict,
            r is Err ==> final(self).state == old(self).state,
            ({
                let blocked = match (old(self).conflict.ticket, requester) {
                    (Some(holder), Some(name)) => holder@ != name@,
                    (Some(holder), None) => true,
                    (None, _) => false,
                };
                let vmatch = old(self).state.version == expected_version;
                let klm = klm_model(old(self).state.key_last_modified@);
                let dm = match data {
                    Some(d) => Some(d@),
                    None => None::<ValModel>,
                };
                let hm = match heavy {
                    Some(h) => Some(h@),
                    None => None::<ValModel>,
                };
                let safe = cas_opt_safe(klm, dm, expected_version) && cas_opt_safe(klm, hm, expected_version);
                let args_ok = (match dm {
                    Some(d) => d is Dict,
                    None => true,
                }) && (match hm {
                    Some(h) => h is Dict,
                    None => true,
                });
                if blocked {
                    r == Err::<(), EngineError>(EngineError::SystemBusy)
                } else if !vmatch && old(self).strict_cas {
                    r == Err::<(), EngineError>(EngineError::StrictCasMismatch { expected: expected_version, found: old(self).state.version })
                } else if !vmatch && !safe {
                    r == Err::<(), EngineError>(EngineError::CasConflict { expected: expected_version, found: old(self).state.version })
                } else if !args_ok {
                    r == Err::<(), EngineError>(EngineError::Context)
                } else {
                    let merged = match dm {
                        Some(d) => crate::value::merge_model(old(self).state.data@, d),
                        None => old(self).state.data@,
                    };
                    let schema_ok = match old(self).schema {
                        Some(sch) => spec_schema_ok(sch.required@, merged),
                        None => true,
                    };
                    if schema_ok {
                        &&& r is Ok
                        &&& updated_from(old(self).state, final(self).state, dm, hm, match signal {
                            Some(sv) => Some(signal_model(sv@)),
                            None => None,
                        })
                    } else {
                        r == Err::<(), EngineError>(EngineError::SchemaViolation)
                    }
                }
            }),
    {
        if self.conflict.is_blocked(requester) {
            return Err(EngineError::SystemBusy);
        }
        let current_version = self.state.version;
        if current_version != expected_version {
            if self.strict_cas {
                return Err(EngineError::StrictCasMismatch { expected: expected_version, found: current_version });
            }
            let mut safe = true;
            if let Some(d) = data {
                if d.is_dict() {
                    if !cas_check_delta(&self.state.key_last_modified, d, expected_version) {
                        safe = false;
                    }
                }
            }
            if safe {
                if let Some(h) = heavy {
                    if h.is_dict() {
                        if !cas_check_delta(&self.state.key_last_modified, h, expected_version) {
                            safe = false;
                        }
                    }
                }
            }
            if !safe {
                return Err(EngineError::CasConflict { expected: expected_version, found: current_version });
            }
        }
        let new_state = match self.state.update(data, heavy, signal) {
            Ok(ns) => ns,
            Err(e) => {
                return Err(e);
            },
        };
        if let Some(sch) = &self.schema {
            if !sch.validate(&new_state.data) {
                return Err(EngineError::SchemaViolation);
            }
        }
        self.state = new_state;
        Ok(())
    }
}

} // verus!
