//! The engine's versioned, logically immutable snapshot.
//!
//! A [`State`] holds the data and heavy dicts, the ordered signal list, and a
//! per-path `last modified` version map. [`State::update`] never mutates: it
//! returns a new state with the deltas deep-merged in, the version advanced
//! by one, and the version map refreshed for every delta key (the top-level
//! key and, for dict deltas, each `key.field` under it).
use vstd::prelude::*;
use crate::value::{Val, ValModel, merge_model, entries_model};
use crate::errors::EngineError;

verus! {

/// Last-modified map: first-match lookup.
pub open spec fn klm_get(es: Seq<(Seq<char>, u64)>, k: Seq<char>) -> Option<u64>
    decreases es.len(),
{
    if es.len() == 0 {
        None
    } else if es[0].0 == k {
        Some(es[0].1)
    } else {
        klm_get(es.drop_first(), k)
    }
}

/// Last-modified map after binding `k`: replace the first match, else append.
pub open spec fn klm_set(es: Seq<(Seq<char>, u64)>, k: Seq<char>, v: u64) -> Seq<(Seq<char>, u64)>
    decreases es.len(),
{
    if es.len() == 0 {
        seq![(k, v)]
    } else if es[0].0 == k {
        seq![(k, v)] + es.drop_first()
    } else {
        seq![es[0]] + klm_set(es.drop_first(), k, v)
    }
}

/// When `i` is the first index bound to `k`, binding `k` updates index `i`.
pub proof fn lemma_klm_set_at(es: Seq<(Seq<char>, u64)>, k: Seq<char>, v: u64, i: int)
    requires
        0 <= i < es.len(),
        es[i].0 == k,
        forall|j: int| 0 <= j < i ==> es[j].0 != k,
    ensures
        klm_set(es, k, v) =~= es.update(i, (k, v)),
    decreases i,
{
    if i > 0 {
        lemma_klm_set_at(es.drop_first(), k, v, i - 1);
    }
}

/// When no entry is bound to `k`, binding `k` appends a new entry.
pub proof fn lemma_klm_set_append(es: Seq<(Seq<char>, u64)>, k: Seq<char>, v: u64)
    requires
        forall|j: int| 0 <= j < es.len() ==> es[j].0 != k,
    ensures
        klm_set(es, k, v) =~= es.push((k, v)),
    decreases es.len(),
{
    if es.len() > 0 {
        lemma_klm_set_append(es.drop_first(), k, v);
    }
}

/// When `i` is the first index bound to `k`, lookup returns that entry.
pub proof fn lemma_klm_get_at(es: Seq<(Seq<char>, u64)>, k: Seq<char>, i: int)
    requires
        0 <= i < es.len(),
        es[i].0 == k,
        forall|j: int| 0 <= j < i ==> es[j].0 != k,
    ensures
        klm_get(es, k) == Some(es[i].1),
    decreases i,
{
    if i > 0 {
        lemma_klm_get_at(es.drop_first(), k, i - 1);
    }
}

/// When no entry is bound to `k`, lookup returns nothing.
pub proof fn lemma_klm_get_none(es: Seq<(Seq<char>, u64)>, k: Seq<char>)
    requires
        forall|j: int| 0 <= j < es.len() ==> es[j].0 != k,
    ensures
        klm_get(es, k) is None,
    decreases es.len(),
{
    if es.len() > 0 {
        lemma_klm_get_none(es.drop_first(), k);
    }
}

/// Binding a key then looking it up yields it; other keys are untouched.
pub proof fn lemma_klm_set_get(es: Seq<(Seq<char>, u64)>, k: Seq<char>, v: u64, k2: Seq<char>)
    ensures
        klm_get(klm_set(es, k, v), k) == Some(v),
        k2 != k ==> klm_get(klm_set(es, k, v), k2) == klm_get(es, k2),
    decreases es.len(),
{
    if es.len() == 0 {
        let r = klm_set(es, k, v);
        assert(r[0] == (k, v));
        if k2 != k {
            assert(r.drop_first() =~= Seq::<(Seq<char>, u64)>::empty());
        }
    } else if es[0].0 == k {
        let r = klm_set(es, k, v);
        assert(r[0] == (k, v));
        assert(r.drop_first() =~= es.drop_first());
    } else {
        let r = klm_set(es, k, v);
        assert(r[0] == es[0]);
        assert(r.drop_first() =~= klm_set(es.drop_first(), k, v));
        lemma_klm_set_get(es.drop_first(), k, v, k2);
    }
}

/// Model of the version map's entries.
pub open spec fn klm_model(es: Seq<(String, u64)>) -> Seq<(Seq<char>, u64)> {
    Seq::new(es.len(), |i: int| if 0 <= i < es.len() { (es[i].0@, es[i].1) } else { (Seq::<char>::empty(), 0u64) })
}

/// Version map after stamping every field of a dict delta under its root:
/// each `root.field` is bound to `v`.
pub open spec fn klm_stamp_fields(klm: Seq<(Seq<char>, u64)>, root: Seq<char>, fs: Seq<(Seq<char>, ValModel)>, v: u64) -> Seq<(Seq<char>, u64)>
    decreases fs.len(),
{
    if fs.len() == 0 {
        klm
    } else {
        klm_stamp_fields(klm_set(klm, root + seq!['.'] + fs[0].0, v), root, fs.drop_first(), v)
    }
}

/// Version map after stamping a whole delta: each top-level key is bound to
/// `v`, and for dict-valued deltas each `key.field` under it as well.
pub open spec fn klm_stamp_delta(klm: Seq<(Seq<char>, u64)>, es: Seq<(Seq<char>, ValModel)>, v: u64) -> Seq<(Seq<char>, u64)>
    decreases es.len(),
{
    if es.len() == 0 {
        klm
    } else {
        let k = es[0].0;
        let base = klm_set(klm, k, v);
        let stamped = if es[0].1 is Dict {
            klm_stamp_fields(base, k, es[0].1->Dict_0, v)
        } else {
            base
        };
        klm_stamp_delta(stamped, es.drop_first(), v)
    }
}

/// Version map after an optional delta: absent deltas stamp nothing.
pub open spec fn klm_stamp_opt(klm: Seq<(Seq<char>, u64)>, delta: Option<ValModel>, v: u64) -> Seq<(Seq<char>, u64)> {
    match delta {
        Some(d) => if d is Dict {
            klm_stamp_delta(klm, d->Dict_0, v)
        } else {
            klm
        },
        None => klm,
    }
}

/// The signal list capped: only the newest `cap` entries stay.
pub open spec fn cap_signal(s: Seq<ValModel>, cap: int) -> Seq<ValModel> {
    if s.len() <= cap {
        s
    } else {
        s.skip(s.len() - cap)
    }
}

/// Model of a signal vector.
pub open spec fn signal_model(s: Seq<Val>) -> Seq<ValModel> {
    crate::value::list_model(s)
}

/// Index of the first version-map entry for the key, if any.
fn klm_find(es: &Vec<(String, u64)>, key: &String) -> (r: Option<usize>)
    ensures
        match r {
            Some(i) => i < es@.len() && es@[i as int].0@ == key@ && forall|j: int|
                0 <= j < i ==> es@[j].0@ != key@,
            None => forall|j: int| 0 <= j < es@.len() ==> es@[j].0@ != key@,
        },
{
    let mut i: usize = 0;
    while i < es.len()
        invariant
            i <= es@.len(),
            forall|j: int| 0 <= j < i ==> es@[j].0@ != key@,
        decreases es@.len() - i,
    {
        if es[i].0.eq(key) {
            return Some(i);
        }
        i = i + 1;
    }
    None
}

/// Stamp one path in the version map.
pub fn klm_bind(es: &mut Vec<(String, u64)>, key: String, v: u64)
    ensures
        klm_model(final(es)@) =~= klm_set(klm_model(old(es)@), key@, v),
{
    let ghost k0 = klm_model(es@);
    match klm_find(es, &key) {
        Some(i) => {
            proof {
                lemma_klm_set_at(k0, key@, v, i as int);
            }
            es[i] = (key, v);
            proof {
                assert(klm_model(es@) =~= k0.update(i as int, (key@, v)));
            }
        },
        None => {
            proof {
                lemma_klm_set_append(k0, key@, v);
            }
            es.push((key, v));
            proof {
                assert(klm_model(es@) =~= k0.push((key@, v)));
            }
        },
    }
}

/// The stamped version of a path, if any.
pub fn klm_lookup(es: &Vec<(String, u64)>, key: &String) -> (r: Option<u64>)
    ensures
        r == klm_get(klm_model(es@), key@),
{
    match klm_find(es, key) {
        Some(i) => {
            proof {
                lemma_klm_get_at(klm_model(es@), key@, i as int);
            }
            Some(es[i].1)
        },
        None => {
            proof {
                lemma_klm_get_none(klm_model(es@), key@);
            }
            None
        },
    }
}

/// Stamp `root.field` for every field of a dict delta.
fn stamp_fields_exec(klm: &mut Vec<(String, u64)>, root: &String, fs: &Vec<(String, Val)>, v: u64)
    ensures
        klm_model(final(klm)@) == klm_stamp_fields(klm_model(old(klm)@), root@, entries_model(fs@), v),
{
    let ghost k0 = klm_model(klm@);
    let ghost f0 = entries_model(fs@);
    proof {
        assert(f0.skip(0) =~= f0);
    }
    let mut i: usize = 0;
    while i < fs.len()
        invariant
            i <= fs@.len(),
            f0 == entries_model(fs@),
            klm_stamp_fields(k0, root@, f0, v) == klm_stamp_fields(klm_model(klm@), root@, f0.skip(i as int), v),
        decreases fs@.len() - i,
    {
        let ghost cur = klm_model(klm@);
        let ghost restf = f0.skip(i as int);
        proof {
            reveal_strlit(".");
            assert(restf[0] == (fs@[i as int].0@, fs@[i as int].1@));
            assert(restf.drop_first() =~= f0.skip(i as int + 1));
        }
        let mut key = root.clone();
        key.append(".");
        key.append(fs[i].0.as_str());
        proof {
            assert(key@ =~= root@ + seq!['.'] + fs@[i as int].0@);
        }
        klm_bind(klm, key, v);
        i = i + 1;
    }
    proof {
        assert(f0.skip(fs@.len() as int) =~= Seq::<(Seq<char>, ValModel)>::empty());
    }
}

/// Stamp every key of a delta, and every `key.field` for dict values.
fn stamp_delta_exec(klm: &mut Vec<(String, u64)>, es: &Vec<(String, Val)>, v: u64)
    ensures
        klm_model(final(klm)@) == klm_stamp_delta(klm_model(old(klm)@), entries_model(es@), v),
{
    let ghost k0 = klm_model(klm@);
    let ghost e0 = entries_model(es@);
    proof {
        assert(e0.skip(0) =~= e0);
    }
    let mut i: usize = 0;
    while i < es.len()
        invariant
            i <= es@.len(),
            e0 == entries_model(es@),
            klm_stamp_delta(k0, e0, v) == klm_stamp_delta(klm_model(klm@), e0.skip(i as int), v),
        decreases es@.len() - i,
    {
        let ghost cur = klm_model(klm@);
        let ghost reste = e0.skip(i as int);
        proof {
            assert(reste[0] == (es@[i as int].0@, es@[i as int].1@));
            assert(reste.drop_first() =~= e0.skip(i as int + 1));
        }
        klm_bind(klm, es[i].0.clone(), v);
        match &es[i].1 {
            Val::Dict(fs) => {
                proof {
                    crate::value::lemma_dict_entries(es@[i as int].1);
                    assert(entries_model(fs@) =~= es@[i as int].1@->Dict_0);
                }
                stamp_fields_exec(klm, &es[i].0, fs, v);
            },
            _ => {},
        }
        i = i + 1;
    }
    proof {
        assert(e0.skip(es@.len() as int) =~= Seq::<(Seq<char>, ValModel)>::empty());
    }
}

/// Element-by-element deep copy of a signal vector.
fn signal_copy(s: &Vec<Val>) -> (r: Vec<Val>)
    ensures
        signal_model(r@) =~= signal_model(s@),
{
    let mut out: Vec<Val> = Vec::new();
    let mut i: usize = 0;
    while i < s.len()
        invariant
            i <= s@.len(),
            out@.len() == i as int,
            forall|j: int| 0 <= j < i ==> out@[j]@ == s@[j]@,
        decreases s@.len() - i,
    {
        out.push(s[i].deep_copy());
        i = i + 1;
    }
    out
}

/// Entry-by-entry copy of a version map.
fn klm_copy(es: &Vec<(String, u64)>) -> (r: Vec<(String, u64)>)
    ensures
        klm_model(r@) =~= klm_model(es@),
{
    let mut out: Vec<(String, u64)> = Vec::new();
    let mut i: usize = 0;
    while i < es.len()
        invariant
            i <= es@.len(),
            out@.len() == i as int,
            forall|j: int| 0 <= j < i ==> out@[j].0@ == es@[j].0@ && out@[j].1 == es@[j].1,
        decreases es@.len() - i,
    {
        let k = es[i].0.clone();
        out.push((k, es[i].1));
        i = i + 1;
    }
    out
}

/// How a state produced by [`State::update`] relates to its predecessor,
/// given the models of the deltas: one version ahead, deltas deep-merged,
/// signal appended under the cap, and the version map stamped (data first,
/// then heavy) with the new version.
pub open spec fn updated_from(prior: State, ns: State, d: Option<ValModel>, h: Option<ValModel>, sv: Option<Seq<ValModel>>) -> bool {
    &&& ns.wf()
    &&& ns.version == prior.version + 1
    &&& ns.signal_cap == prior.signal_cap
    &&& (match d {
        Some(dm) => dm is Dict && ns.data@ == merge_model(prior.data@, dm),
        None => ns.data@ == prior.data@,
    })
    &&& (match h {
        Some(hm) => hm is Dict && ns.heavy@ == merge_model(prior.heavy@, hm),
        None => ns.heavy@ == prior.heavy@,
    })
    &&& (match sv {
        Some(sm) => signal_model(ns.signal@) == cap_signal(signal_model(prior.signal@) + sm, prior.signal_cap as int),
        None => signal_model(ns.signal@) == signal_model(prior.signal@),
    })
    &&& klm_model(ns.key_last_modified@) == klm_stamp_opt(
        klm_stamp_opt(klm_model(prior.key_last_modified@), d, ns.version),
        h,
        ns.version,
    )
}

/// An immutable, versioned snapshot.
pub struct State {
    /// Version counter; every successful commit advances it by one.
    pub version: u64,
    /// The logical data tree (a dict).
    pub data: Val,
    /// Large payloads held by reference (a dict).
    pub heavy: Val,
    /// Ordered signal list, capped at `signal_cap`.
    pub signal: Vec<Val>,
    /// For each stamped path, the version that last changed it.
    pub key_last_modified: Vec<(String, u64)>,
    /// How many signals are kept before the oldest are trimmed.
    pub signal_cap: usize,
}

impl State {
    /// Well-formed state: the data and heavy trees are dicts.
    pub open spec fn wf(&self) -> bool {
        &&& self.data is Dict
        &&& self.heavy is Dict
    }

    /// A fresh state holding the given parts.
    pub fn new(data: Val, heavy: Val, signal: Vec<Val>, version: u64, signal_cap: usize) -> (r: State)
        requires
            data is Dict,
            heavy is Dict,
        ensures
            r.wf(),
            r.version == version,
            r.data == data,
            r.heavy == heavy,
            r.signal == signal,
            klm_model(r.key_last_modified@).len() == 0,
            r.signal_cap == signal_cap,
    {
        State { version, data, heavy, signal, key_last_modified: Vec::new(), signal_cap }
    }

    /// A new state one version ahead, with the deltas deep-merged in, every
    /// delta key (and `key.field` for dict deltas) stamped with the new
    /// version, and the signal delta appended under the cap. The prior state
    /// is untouched; the result shares no mutable structure with it. A data
    /// or heavy delta that is not a dict is rejected as a usage error.
    pub fn update(&self, data: Option<&Val>, heavy: Option<&Val>, signal: Option<&Vec<Val>>) -> (r: Result<State, EngineError>)
        requires
            self.wf(),
            self.version < u64::MAX,
        ensures
            match r {
                Ok(ns) => updated_from(
                    *self,
                    ns,
                    match data {
                        Some(d) => Some(d@),
                        None => None,
                    },
                    match heavy {
                        Some(h) => Some(h@),
                        None => None,
                    },
                    match signal {
                        Some(sv) => Some(signal_model(sv@)),
                        None => None,
                    },
                ),
                Err(e) => {
                    &&& e == EngineError::Context
                    &&& ((match data {
                        Some(d) => !(d@ is Dict),
                        None => false,
                    }) || (match heavy {
                        Some(h) => !(h@ is Dict),
                        None => false,
                    }))
                },
            },
    {
        if let Some(d) = data {
            if !d.is_dict() {
                return Err(EngineError::Context);
            }
        }
        if let Some(h) = heavy {
            if !h.is_dict() {
                return Err(EngineError::Context);
            }
        }
        let new_version = self.version + 1;
        let nd = match data {
            Some(d) => crate::value::deep_merge_cow(&self.data, d),
            None => self.data.deep_copy(),
        };
        let nh = match heavy {
            Some(h) => crate::value::deep_merge_cow(&self.heavy, h),
            None => self.heavy.deep_copy(),
        };
        proof {
            assert(nd@ is Dict);
            assert(nh@ is Dict);
            assert(nd is Dict);
            assert(nh is Dict);
        }
        let mut ns_sig = signal_copy(&self.signal);
        if let Some(sv) = signal {
            let ghost base = signal_model(self.signal@);
            let ghost delta = signal_model(sv@);
            let mut i: usize = 0;
            while i < sv.len()
                invariant
                    i <= sv@.len(),
                    delta == signal_model(sv@),
                    signal_model(ns_sig@) =~= base + delta.take(i as int),
                decreases sv@.len() - i,
            {
                let ghost pre = signal_model(ns_sig@);
                ns_sig.push(sv[i].deep_copy());
                i = i + 1;
                proof {
                    assert(signal_model(ns_sig@) =~= pre.push(delta[i as int - 1]));
                    assert(base + delta.take(i as int) =~= (base + delta.take(i as int - 1)).push(delta[i as int - 1]));
                }
            }
            proof {
                assert(delta.take(sv@.len() as int) =~= delta);
            }
            let ghost combined = base + delta;
            let ghost dropped: int = if combined.len() > self.signal_cap { combined.len() - self.signal_cap as int } else { 0int };
            let pre_len = ns_sig.len();
            proof {
                assert(pre_len == ns_sig@.len());
                assert(combined.len() == ns_sig@.len());
                assert(combined.skip(0) =~= combined);
            }
            let mut removed: usize = 0;
            while ns_sig.len() > self.signal_cap
                invariant
                    signal_model(ns_sig@) =~= combined.skip(removed as int),
                    dropped == (if combined.len() > self.signal_cap { combined.len() - self.signal_cap as int } else { 0int }),
                    removed as int <= dropped,
                    combined.len() <= usize::MAX,
                    combined.len() - removed == ns_sig@.len(),
                decreases ns_sig@.len(),
            {
                let ghost pre = signal_model(ns_sig@);
                let _ = ns_sig.remove(0);
                removed = removed + 1;
                proof {
                    assert(signal_model(ns_sig@) =~= pre.drop_first());
                    assert(pre.drop_first() =~= combined.skip(removed as int));
                }
            }
            proof {
                assert(signal_model(ns_sig@) =~= cap_signal(combined, self.signal_cap as int));
            }
        }
        let mut klm = klm_copy(&self.key_last_modified);
        if let Some(d) = data {
            match d {
                Val::Dict(des) => {
                    proof {
                        crate::value::lemma_dict_entries(*d);
                        assert(entries_model(des@) =~= d@->Dict_0);
                    }
                    stamp_delta_exec(&mut klm, des, new_version);
                },
                _ => {},
            }
        }
        if let Some(h) = heavy {
            match h {
                Val::Dict(hes) => {
                    proof {
                        crate::value::lemma_dict_entries(*h);
                        assert(entries_model(hes@) =~= h@->Dict_0);
                    }
                    stamp_delta_exec(&mut klm, hes, new_version);
                },
                _ => {},
            }
        }
        Ok(State {
            version: new_version,
            data: nd,
            heavy: nh,
            signal: ns_sig,
            key_last_modified: klm,
            signal_cap: self.signal_cap,
        })
    }

    /// An empty state at version zero.
    pub fn empty() -> (r: State)
        ensures
            r.wf(),
            r.version == 0,
            r.data@ is Dict && r.data@->Dict_0.len() == 0,
            r.heavy@ is Dict && r.heavy@->Dict_0.len() == 0,
            r.signal@.len() == 0,
            klm_model(r.key_last_modified@).len() == 0,
            r.signal_cap == 1000,
    {
        let data = Val::Dict(Vec::new());
        let heavy = Val::Dict(Vec::new());
        proof {
            crate::value::lemma_dict_entries(data);
            crate::value::lemma_dict_entries(heavy);
        }
        State::new(data, heavy, Vec::new(), 0, 1000)
    }
}

} // verus!
