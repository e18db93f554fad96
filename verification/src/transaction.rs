//! Scoped write sessions.
//!
//! A [`Transaction`] buffers every pending change: explicit updates, the
//! append-only delta log fed by the proxies, shadow copies for differential
//! inference, and the outbox. Nothing reaches the engine until a clean close:
//! then deltas are inferred from the shadows, the log is replayed shortest
//! path first, the result is validated, the engine state is swapped, and the
//! outbox is flushed — or, on any error, everything is discarded.
use vstd::prelude::*;
use crate::value::{Val, ValModel};
use crate::paths::{Seg, SegModel, path_model};
use crate::errors::EngineError;
use crate::engine::{OutboxCollector, OutboxMsg, TheusEngine};
use crate::state::{State, updated_from};

verus! {

/// Kind of a logged write.
#[derive(Debug, Clone, Copy, PartialEq, Eq, Structural)]
pub enum DeltaOp {
    /// A plain write at a path.
    Write,
    /// An item write through a collection.
    WriteItem,
}

/// One recorded write: the path in both forms, the operation, and the new
/// and old values when known.
pub struct DeltaEntry {
    /// The path as the writer gave it.
    pub path_str: String,
    /// The same path, parsed.
    pub segs: Vec<Seg>,
    /// Kind of write.
    pub op: DeltaOp,
    /// Value written, if any.
    pub value: Option<Val>,
    /// Value seen before the write, if known.
    pub old_value: Option<Val>,
}

/// Model of a delta entry.
pub struct DeltaModel {
    pub path_str: Seq<char>,
    pub segs: Seq<SegModel>,
    pub op: DeltaOp,
    pub value: Option<ValModel>,
    pub old_value: Option<ValModel>,
}

impl View for DeltaEntry {
    type V = DeltaModel;

    open spec fn view(&self) -> DeltaModel {
        DeltaModel {
            path_str: self.path_str@,
            segs: path_model(self.segs@),
            op: self.op,
            value: match self.value {
                Some(v) => Some(v@),
                None => None,
            },
            old_value: match self.old_value {
                Some(v) => Some(v@),
                None => None,
            },
        }
    }
}

/// Model of a delta log.
pub open spec fn log_model(s: Seq<DeltaEntry>) -> Seq<DeltaModel> {
    Seq::new(s.len(), |i: int| if 0 <= i < s.len() { s[i]@ } else { DeltaModel { path_str: Seq::empty(), segs: Seq::empty(), op: DeltaOp::Write, value: None, old_value: None } })
}

/// One shadowed path: the snapshot handed to the writer (`edited`) and the
/// value the state held when the shadow was taken (`pristine`).
pub struct ShadowEntry {
    /// Full path of the shadow.
    pub path_str: String,
    /// The same path, parsed.
    pub segs: Vec<Seg>,
    /// The writer's working copy.
    pub edited: Val,
    /// The untouched value at shadowing time.
    pub pristine: Val,
    /// Whether the shadow aliases the live value (heavy zone): such a pair is
    /// never compared at inference time.
    pub aliased: bool,
}

/// Model of a shadow entry.
pub struct ShadowModel {
    pub path_str: Seq<char>,
    pub segs: Seq<SegModel>,
    pub edited: ValModel,
    pub pristine: ValModel,
    pub aliased: bool,
}

impl View for ShadowEntry {
    type V = ShadowModel;

    open spec fn view(&self) -> ShadowModel {
        ShadowModel {
            path_str: self.path_str@,
            segs: path_model(self.segs@),
            edited: self.edited@,
            pristine: self.pristine@,
            aliased: self.aliased,
        }
    }
}

/// Model of the shadow table.
pub open spec fn shadows_model(s: Seq<ShadowEntry>) -> Seq<ShadowModel> {
    Seq::new(s.len(), |i: int| if 0 <= i < s.len() { s[i]@ } else { ShadowModel { path_str: Seq::empty(), segs: Seq::empty(), edited: ValModel::Null, pristine: ValModel::Null, aliased: false } })
}

/// Root of a path string: the characters before the first dot or bracket.
pub open spec fn spec_root_of(cs: Seq<char>) -> Seq<char> {
    let d = crate::paths::find_char(cs, '.');
    let b = crate::paths::find_char(cs, '[');
    cs.take(if d <= b {
        d
    } else {
        b
    })
}

/// Root of a path string.
pub fn root_of(path: &String) -> (r: String)
    ensures
        r@ == spec_root_of(path@),
{
    let cs = crate::paths::str_to_chars(path.as_str());
    let mut i: usize = 0;
    while i < cs.len() && cs[i] != '.' && cs[i] != '['
        invariant
            i <= cs@.len(),
            cs@ == path@,
            forall|j: int| 0 <= j < i ==> cs@[j] != '.' && cs@[j] != '[',
        decreases cs@.len() - i,
    {
        i = i + 1;
    }
    proof {
        if i < cs@.len() {
            if cs@[i as int] == '.' {
                crate::paths::lemma_find_char_at(cs@, '.', i as int);
                crate::paths::lemma_find_char_range(cs@, '[');
            } else {
                crate::paths::lemma_find_char_at(cs@, '[', i as int);
                crate::paths::lemma_find_char_range(cs@, '.');
            }
        } else {
            crate::paths::lemma_find_char_none(cs@, '.');
            crate::paths::lemma_find_char_none(cs@, '[');
        }
    }
    let mut root: Vec<char> = Vec::new();
    let mut t: usize = 0;
    while t < i
        invariant
            t <= i <= cs@.len(),
            root@ =~= cs@.take(t as int),
        decreases i - t,
    {
        let ghost pre = root@;
        root.push(cs[t]);
        t = t + 1;
        proof {
            assert(cs@.take(t as int) =~= pre.push(cs@[t - 1]));
        }
    }
    let s = crate::paths::chars_to_string(&root);
    proof {
        assert(s@ =~= spec_root_of(path@));
    }
    s
}

/// First shadow index for a path, or the table length when none.
pub open spec fn first_shadow(s: Seq<ShadowModel>, p: Seq<char>) -> int
    decreases s.len(),
{
    if s.len() == 0 {
        0
    } else if s[0].path_str == p {
        0
    } else {
        1 + first_shadow(s.drop_first(), p)
    }
}

/// The first-shadow index is in range exactly when the path is shadowed.
pub proof fn lemma_first_shadow_at(s: Seq<ShadowModel>, p: Seq<char>, k: int)
    requires
        0 <= k < s.len(),
        s[k].path_str == p,
        forall|j: int| 0 <= j < k ==> s[j].path_str != p,
    ensures
        first_shadow(s, p) == k,
    decreases k,
{
    if k > 0 {
        assert forall|j: int| 0 <= j < k - 1 implies s.drop_first()[j].path_str != p by {
            assert(s.drop_first()[j] == s[j + 1]);
        }
        lemma_first_shadow_at(s.drop_first(), p, k - 1);
    }
}

/// The first-shadow index is bounded, hits the path when in range, and
/// nothing before it does.
pub proof fn lemma_first_shadow_range(s: Seq<ShadowModel>, p: Seq<char>)
    ensures
        0 <= first_shadow(s, p) <= s.len(),
        first_shadow(s, p) < s.len() ==> s[first_shadow(s, p)].path_str == p,
        forall|j: int| 0 <= j < first_shadow(s, p) ==> s[j].path_str != p,
    decreases s.len(),
{
    if s.len() > 0 && s[0].path_str != p {
        lemma_first_shadow_range(s.drop_first(), p);
        let f = first_shadow(s, p);
        assert forall|j: int| 0 <= j < f implies s[j].path_str != p by {
            if j > 0 {
                assert(s[j] == s.drop_first()[j - 1]);
            }
        }
    }
}

/// With no shadow for the path, the first-shadow index is the length.
pub proof fn lemma_first_shadow_none(s: Seq<ShadowModel>, p: Seq<char>)
    requires
        forall|j: int| 0 <= j < s.len() ==> s[j].path_str != p,
    ensures
        first_shadow(s, p) == s.len(),
    decreases s.len(),
{
    if s.len() > 0 {
        assert forall|j: int| 0 <= j < s.drop_first().len() implies s.drop_first()[j].path_str != p by {
            assert(s.drop_first()[j] == s[j + 1]);
        }
        lemma_first_shadow_none(s.drop_first(), p);
    }
}

/// Deltas inference produces from a shadow table, in table order: one write
/// per non-aliased shadow whose working copy no longer equals its pristine
/// value, carrying the working copy as the new value.
pub open spec fn inferred(s: Seq<ShadowModel>) -> Seq<DeltaModel>
    decreases s.len(),
{
    if s.len() == 0 {
        Seq::empty()
    } else {
        let head = if !s[0].aliased && s[0].edited != s[0].pristine {
            seq![DeltaModel {
                path_str: s[0].path_str,
                segs: s[0].segs,
                op: DeltaOp::Write,
                value: Some(s[0].edited),
                old_value: Some(s[0].pristine),
            }]
        } else {
            Seq::empty()
        };
        head + inferred(s.drop_first())
    }
}

/// Copy of one segment.
pub fn seg_copy(s: &Seg) -> (r: Seg)
    ensures
        r@ == s@,
{
    match s {
        Seg::Key(k) => Seg::Key(k.clone()),
        Seg::Index(i) => Seg::Index(*i),
    }
}

/// Copy of a parsed path.
pub fn segs_copy(s: &Vec<Seg>) -> (r: Vec<Seg>)
    ensures
        path_model(r@) =~= path_model(s@),
{
    let mut out: Vec<Seg> = Vec::new();
    let mut i: usize = 0;
    while i < s.len()
        invariant
            i <= s@.len(),
            out@.len() == i as int,
            forall|j: int| 0 <= j < i ==> out@[j]@ == s@[j]@,
        decreases s@.len() - i,
    {
        out.push(seg_copy(&s[i]));
        i = i + 1;
    }
    out
}

/// Sort key of a logged write: the length of its path as written.
pub open spec fn delta_key(d: DeltaModel) -> int {
    d.path_str.len() as int
}

/// Insert a write into a run, after every entry whose key is not larger:
/// entries with equal keys keep their original order.
pub open spec fn insert_by_len(sorted: Seq<DeltaModel>, e: DeltaModel) -> Seq<DeltaModel>
    decreases sorted.len(),
{
    if sorted.len() == 0 {
        seq![e]
    } else if delta_key(sorted[0]) <= delta_key(e) {
        seq![sorted[0]] + insert_by_len(sorted.drop_first(), e)
    } else {
        seq![e] + sorted
    }
}

/// Stable sort of the log by ascending path length.
pub open spec fn sort_by_len(s: Seq<DeltaModel>) -> Seq<DeltaModel>
    decreases s.len(),
{
    if s.len() == 0 {
        Seq::empty()
    } else {
        insert_by_len(sort_by_len(s.drop_last()), s.last())
    }
}

/// Inserting at the first position whose key is larger is the stable insert.
pub proof fn lemma_insert_by_at(s: Seq<DeltaModel>, e: DeltaModel, idx: int)
    requires
        0 <= idx <= s.len(),
        forall|j: int| 0 <= j < idx ==> delta_key(s[j]) <= delta_key(e),
        idx < s.len() ==> delta_key(s[idx]) > delta_key(e),
    ensures
        insert_by_len(s, e) =~= s.take(idx) + seq![e] + s.skip(idx),
    decreases idx,
{
    if s.len() == 0 {
    } else if idx == 0 {
        assert(s.take(0) + seq![e] + s.skip(0) =~= seq![e] + s);
    } else {
        assert forall|j: int| 0 <= j < idx - 1 implies delta_key(s.drop_first()[j]) <= delta_key(e) by {
            assert(s.drop_first()[j] == s[j + 1]);
        }
        lemma_insert_by_at(s.drop_first(), e, idx - 1);
        assert(s.drop_first().take(idx - 1) =~= s.take(idx).drop_first());
        assert(insert_by_len(s, e) =~= seq![s[0]] + insert_by_len(s.drop_first(), e));
        assert(seq![s[0]] + (s.drop_first().take(idx - 1) + seq![e] + s.drop_first().skip(idx - 1))
            =~= s.take(idx) + seq![e] + s.skip(idx));
    }
}

/// The writes that commit applies: operation `Write`, with a value.
pub open spec fn writes_with_values(s: Seq<DeltaModel>) -> Seq<DeltaModel>
    decreases s.len(),
{
    if s.len() == 0 {
        Seq::empty()
    } else {
        let head = if s[0].op == DeltaOp::Write && s[0].value is Some {
            seq![s[0]]
        } else {
            Seq::<DeltaModel>::empty()
        };
        head + writes_with_values(s.drop_first())
    }
}

/// Segments a write lands on in the heavy buffer: a path written under the
/// literal `heavy.` prefix loses its first segment.
pub open spec fn heavy_target_segs(d: DeltaModel) -> Seq<SegModel> {
    if "heavy."@.is_prefix_of(d.path_str) {
        d.segs.drop_first()
    } else {
        d.segs
    }
}

/// Fold the writes into the pending buffers: a write whose path resolves to
/// the Heavy zone lands in the heavy buffer (under its stripped path), every
/// other write in the data buffer; the first failing path write aborts.
pub open spec fn apply_deltas(data: ValModel, heavy: ValModel, ds: Seq<DeltaModel>) -> Result<(ValModel, ValModel), EngineError>
    decreases ds.len(),
{
    if ds.len() == 0 {
        Ok((data, heavy))
    } else {
        let d = ds[0];
        match d.value {
            Some(v) => {
                if crate::zones::spec_zone_of(d.segs) is Heavy {
                    match crate::value::set_path(heavy, heavy_target_segs(d), v) {
                        Ok(h2) => apply_deltas(data, h2, ds.drop_first()),
                        Err(e) => Err(e),
                    }
                } else {
                    match crate::value::set_path(data, d.segs, v) {
                        Ok(d2) => apply_deltas(d2, heavy, ds.drop_first()),
                        Err(e) => Err(e),
                    }
                }
            },
            None => apply_deltas(data, heavy, ds.drop_first()),
        }
    }
}

/// Replay the log in issue order into one fresh tree: every `Write` with a
/// value is set at its path, zones ignored; the first failure aborts.
pub open spec fn replay(acc: ValModel, ds: Seq<DeltaModel>) -> Result<ValModel, EngineError>
    decreases ds.len(),
{
    if ds.len() == 0 {
        Ok(acc)
    } else {
        let d = ds[0];
        if d.op == DeltaOp::Write && d.value is Some {
            match crate::value::set_path(acc, d.segs, d.value->0) {
                Ok(a2) => replay(a2, ds.drop_first()),
                Err(e) => Err(e),
            }
        } else {
            replay(acc, ds.drop_first())
        }
    }
}

/// First-match lookup of a root in the root-to-shadow table.
pub open spec fn p2s_get(es: Seq<(Seq<char>, usize)>, k: Seq<char>) -> Option<usize>
    decreases es.len(),
{
    if es.len() == 0 {
        None
    } else if es[0].0 == k {
        Some(es[0].1)
    } else {
        p2s_get(es.drop_first(), k)
    }
}

/// Model of the root-to-shadow table.
pub open spec fn p2s_model(es: Seq<(String, usize)>) -> Seq<(Seq<char>, usize)> {
    Seq::new(es.len(), |i: int| if 0 <= i < es.len() { (es[i].0@, es[i].1) } else { (Seq::<char>::empty(), 0usize) })
}

/// When `i` is the first index bound to `k`, lookup returns that entry.
pub proof fn lemma_p2s_get_at(es: Seq<(Seq<char>, usize)>, k: Seq<char>, i: int)
    requires
        0 <= i < es.len(),
        es[i].0 == k,
        forall|j: int| 0 <= j < i ==> es[j].0 != k,
    ensures
        p2s_get(es, k) == Some(es[i].1),
    decreases i,
{
    if i > 0 {
        lemma_p2s_get_at(es.drop_first(), k, i - 1);
    }
}

/// When no entry is bound to `k`, lookup returns nothing.
pub proof fn lemma_p2s_get_none(es: Seq<(Seq<char>, usize)>, k: Seq<char>)
    requires
        forall|j: int| 0 <= j < es.len() ==> es[j].0 != k,
    ensures
        p2s_get(es, k) is None,
    decreases es.len(),
{
    if es.len() > 0 {
        lemma_p2s_get_none(es.drop_first(), k);
    }
}

/// The root-level working copies the log commits: walking the log in order,
/// each entry whose root has a shadow binds that root to the shadow's
/// working copy.
pub open spec fn shadow_updates(log: Seq<DeltaModel>, p2s: Seq<(Seq<char>, usize)>, shadows: Seq<ShadowModel>, acc: Seq<(Seq<char>, ValModel)>) -> Seq<(Seq<char>, ValModel)>
    decreases log.len(),
{
    if log.len() == 0 {
        acc
    } else {
        let root = spec_root_of(log[0].path_str);
        let acc2 = match p2s_get(p2s, root) {
            Some(idx) => if idx < shadows.len() {
                crate::value::dict_set(acc, root, shadows[idx as int].edited)
            } else {
                acc
            },
            None => acc,
        };
        shadow_updates(log.drop_first(), p2s, shadows, acc2)
    }
}

/// Entries after binding every given pair in order.
pub open spec fn set_all(acc: Seq<(Seq<char>, ValModel)>, es: Seq<(Seq<char>, ValModel)>) -> Seq<(Seq<char>, ValModel)>
    decreases es.len(),
{
    if es.len() == 0 {
        acc
    } else {
        set_all(crate::value::dict_set(acc, es[0].0, es[0].1), es.drop_first())
    }
}

/// The delta log a close works from: the log as recorded, extended by the
/// inferred writes when inference has not run yet.
pub open spec fn closed_log(tx: Transaction) -> Seq<DeltaModel> {
    if tx.shadows_inferred {
        log_model(tx.delta_log@)
    } else {
        log_model(tx.delta_log@) + inferred(shadows_model(tx.shadows@))
    }
}

/// How the state a close commits relates to the prior state: the session's
/// writes (sorted by ascending path length) are applied to its pending
/// buffers, and the prior state advances one version with those buffers
/// deep-merged in and the pending signals appended.
pub open spec fn updated_from_transaction(tx: Transaction, prior: State, ns: State) -> bool {
    let ds = sort_by_len(writes_with_values(closed_log(tx)));
    match apply_deltas(tx.pending_data@, tx.pending_heavy@, ds) {
        Ok(bufs) => updated_from(
            prior,
            ns,
            Some(bufs.0),
            Some(bufs.1),
            Some(crate::state::signal_model(tx.pending_signal@)),
        ),
        Err(_) => false,
    }
}

/// A successful path write into a dict yields a dict.
pub proof fn lemma_set_path_dict(m: ValModel, p: Seq<SegModel>, v: ValModel)
    requires
        m is Dict,
        crate::value::set_path(m, p, v) is Ok,
    ensures
        crate::value::set_path(m, p, v)->Ok_0 is Dict,
{
}

/// Applying writes to dict buffers keeps them dicts.
pub proof fn lemma_apply_deltas_dict(data: ValModel, heavy: ValModel, ds: Seq<DeltaModel>)
    requires
        data is Dict,
        heavy is Dict,
        apply_deltas(data, heavy, ds) is Ok,
    ensures
        apply_deltas(data, heavy, ds)->Ok_0.0 is Dict,
        apply_deltas(data, heavy, ds)->Ok_0.1 is Dict,
    decreases ds.len(),
{
    if ds.len() > 0 {
        let d = ds[0];
        match d.value {
            Some(v) => {
                if crate::zones::spec_zone_of(d.segs) is Heavy {
                    lemma_set_path_dict(heavy, heavy_target_segs(d), v);
                    lemma_apply_deltas_dict(data, crate::value::set_path(heavy, heavy_target_segs(d), v)->Ok_0, ds.drop_first());
                } else {
                    lemma_set_path_dict(data, d.segs, v);
                    lemma_apply_deltas_dict(crate::value::set_path(data, d.segs, v)->Ok_0, heavy, ds.drop_first());
                }
            },
            None => {
                lemma_apply_deltas_dict(data, heavy, ds.drop_first());
            },
        }
    }
}

/// Byte length of a logged write's path.
fn delta_len(e: &DeltaEntry) -> (r: usize)
    ensures
        r == delta_key(e@),
{
    let cs = crate::paths::str_to_chars(e.path_str.as_str());
    cs.len()
}

/// Insert one write into a run, after every entry whose key is not larger.
fn insert_delta(out: &mut Vec<DeltaEntry>, e: DeltaEntry)
    ensures
        log_model(final(out)@) =~= insert_by_len(log_model(old(out)@), e@),
{
    let ghost s0 = log_model(out@);
    let key = delta_len(&e);
    let mut idx: usize = 0;
    while idx < out.len() && delta_len(&out[idx]) <= key
        invariant
            idx <= out@.len(),
            s0 == log_model(out@),
            key == delta_key(e@),
            forall|j: int| 0 <= j < idx ==> delta_key(s0[j]) <= delta_key(e@),
        decreases out@.len() - idx,
    {
        idx = idx + 1;
    }
    proof {
        lemma_insert_by_at(s0, e@, idx as int);
    }
    out.insert(idx, e);
    proof {
        assert(log_model(out@) =~= s0.take(idx as int) + seq![e@] + s0.skip(idx as int));
    }
}

/// Stable sort of writes by ascending path length.
fn sort_deltas(v: Vec<DeltaEntry>) -> (r: Vec<DeltaEntry>)
    ensures
        log_model(r@) == sort_by_len(log_model(v@)),
{
    let l = v.len();
    let ghost v0 = log_model(v@);
    proof {
        assert(v0.len() == l);
    }
    let mut rest = v;
    let mut out: Vec<DeltaEntry> = Vec::new();
    proof {
        assert(log_model(out@) =~= sort_by_len(v0.take(0)));
    }
    let mut i: usize = 0;
    while rest.len() > 0
        invariant
            i == v0.len() - rest@.len(),
            0 <= i <= v0.len(),
            v0.len() == l,
            log_model(rest@) =~= v0.skip(i as int),
            log_model(out@) == sort_by_len(v0.take(i as int)),
        decreases rest@.len(),
    {
        let ghost pre_rest = rest@;
        let e = rest.remove(0);
        proof {
            assert(log_model(pre_rest)[0] == pre_rest[0]@);
            assert(log_model(pre_rest)[0] == v0.skip(i as int)[0]);
            assert(e@ == v0[i as int]);
            assert(rest@ =~= pre_rest.drop_first());
            assert forall|j: int| 0 <= j < rest@.len() implies log_model(rest@)[j] == v0.skip(i as int + 1)[j] by {
                assert(log_model(rest@)[j] == rest@[j]@);
                assert(rest@[j] == pre_rest[j + 1]);
                assert(log_model(pre_rest)[j + 1] == pre_rest[j + 1]@);
                assert(log_model(pre_rest)[j + 1] == v0.skip(i as int)[j + 1]);
            }
            assert(log_model(rest@) =~= v0.skip(i as int + 1));
        }
        insert_delta(&mut out, e);
        proof {
            assert(v0.take(i as int + 1).drop_last() =~= v0.take(i as int));
            assert(v0.take(i as int + 1).last() == v0[i as int]);
        }
        i = i + 1;
    }
    proof {
        assert(v0.take(v0.len() as int) =~= v0);
    }
    out
}

/// The shadow token recorded for a root, if any.
fn p2s_lookup(es: &Vec<(String, usize)>, key: &String) -> (r: Option<usize>)
    ensures
        r == p2s_get(p2s_model(es@), key@),
{
    let mut i: usize = 0;
    while i < es.len()
        invariant
            i <= es@.len(),
            forall|j: int| 0 <= j < i ==> es@[j].0@ != key@,
        decreases es@.len() - i,
    {
        if es[i].0.eq(key) {
            proof {
                lemma_p2s_get_at(p2s_model(es@), key@, i as int);
            }
            return Some(es[i].1);
        }
        i = i + 1;
    }
    proof {
        lemma_p2s_get_none(p2s_model(es@), key@);
    }
    None
}

/// A scoped write session against one engine.
pub struct Transaction {
    /// Explicit data updates, deep-merged in as given.
    pub pending_data: Val,
    /// Explicit heavy updates.
    pub pending_heavy: Val,
    /// Signals queued for append.
    pub pending_signal: Vec<Val>,
    /// Messages to flush into the engine outbox on a successful close.
    pub pending_outbox: OutboxCollector,
    /// When the session was entered, in host milliseconds.
    pub start_ms: Option<u64>,
    /// Wall-clock budget for the session.
    pub write_timeout_ms: u64,
    /// Append-only record of every write, in issue order.
    pub delta_log: Vec<DeltaEntry>,
    /// Shadowed paths; an entry's index is its identity token.
    pub shadows: Vec<ShadowEntry>,
    /// First shadow taken under each root path.
    pub path_to_shadow: Vec<(String, usize)>,
    /// Whether differential inference already ran (it runs once).
    pub shadows_inferred: bool,
}

impl Transaction {
    /// Well-formed session: the pending trees are dicts.
    pub open spec fn wf(&self) -> bool {
        &&& self.pending_data is Dict
        &&& self.pending_heavy is Dict
    }

    /// A fresh session with empty buffers and the given timeout.
    pub fn new(write_timeout_ms: u64) -> (r: Transaction)
        ensures
            r.wf(),
            r.pending_data@ is Dict && r.pending_data@->Dict_0.len() == 0,
            r.pending_heavy@ is Dict && r.pending_heavy@->Dict_0.len() == 0,
            r.pending_signal@.len() == 0,
            r.pending_outbox.messages@.len() == 0,
            r.start_ms is None,
            r.write_timeout_ms == write_timeout_ms,
            r.delta_log@.len() == 0,
            r.shadows@.len() == 0,
            r.path_to_shadow@.len() == 0,
            !r.shadows_inferred,
    {
        let pd = Val::Dict(Vec::new());
        let ph = Val::Dict(Vec::new());
        proof {
            crate::value::lemma_dict_entries(pd);
            crate::value::lemma_dict_entries(ph);
        }
        Transaction {
            pending_data: pd,
            pending_heavy: ph,
            pending_signal: Vec::new(),
            pending_outbox: OutboxCollector::new(),
            start_ms: None,
            write_timeout_ms,
            delta_log: Vec::new(),
            shadows: Vec::new(),
            path_to_shadow: Vec::new(),
            shadows_inferred: false,
        }
    }

    /// Enter the session at the given host time.
    pub fn enter(&mut self, now_ms: u64)
        ensures
            *final(self) == (Transaction { start_ms: Some(now_ms), ..*old(self) }),
    {
        self.start_ms = Some(now_ms);
    }

    /// The session's outbox.
    pub fn outbox(&self) -> (r: &OutboxCollector)
        ensures
            r == self.pending_outbox,
    {
        &self.pending_outbox
    }

    /// Queue one message for flush at a successful close.
    pub fn outbox_add(&mut self, msg: OutboxMsg)
        ensures
            *final(self) == (Transaction { pending_outbox: final(self).pending_outbox, ..*old(self) }),
            final(self).pending_outbox.messages@ == old(self).pending_outbox.messages@.push(msg),
    {
        self.pending_outbox.add(msg);
    }

    /// Record one write in the delta log, parsing the path as given.
    pub fn log_delta(&mut self, path: String, old_val: Option<Val>, new_val: Option<Val>)
        ensures
            *final(self) == (Transaction { delta_log: final(self).delta_log, ..*old(self) }),
            final(self).delta_log@.len() == old(self).delta_log@.len() + 1,
            final(self).delta_log@.take(old(self).delta_log@.len() as int) == old(self).delta_log@,
            ({
                let e = final(self).delta_log@.last()@;
                &&& e.path_str == path@
                &&& e.segs == crate::paths::spec_parse_path(path@)
                &&& e.op == DeltaOp::Write
                &&& e.value == (match new_val {
                    Some(v) => Some(v@),
                    None => None::<ValModel>,
                })
                &&& e.old_value == (match old_val {
                    Some(v) => Some(v@),
                    None => None::<ValModel>,
                })
            }),
    {
        let segs = crate::paths::parse_path_segments(path.as_str());
        let entry = DeltaEntry { path_str: path, segs, op: DeltaOp::Write, value: new_val, old_value: old_val };
        let ghost pre = self.delta_log@;
        self.delta_log.push(entry);
        proof {
            assert(self.delta_log@.take(pre.len() as int) =~= pre);
        }
    }

    /// Audit hook for guard-level writes; recording is left to the log above.
    pub fn log_internal(&self, path: String, op: String, new_val: Option<Val>, old_val: Option<Val>) -> (r: Result<(), EngineError>)
        ensures
            r is Ok,
    {
        let _ = path;
        let _ = op;
        let _ = new_val;
        let _ = old_val;
        Ok(())
    }

    /// The logged paths, in the order the writes were recorded.
    pub fn get_delta_log(&self) -> (r: Vec<String>)
        ensures
            r@.len() == self.delta_log@.len(),
            forall|i: int| 0 <= i < r@.len() ==> r@[i]@ == self.delta_log@[i]@.path_str,
    {
        let mut out: Vec<String> = Vec::new();
        let mut i: usize = 0;
        while i < self.delta_log.len()
            invariant
                i <= self.delta_log@.len(),
                out@.len() == i as int,
                forall|j: int| 0 <= j < i ==> out@[j]@ == self.delta_log@[j]@.path_str,
            decreases self.delta_log@.len() - i,
        {
            out.push(self.delta_log[i].path_str.clone());
            i = i + 1;
        }
        out
    }

    /// Whether the token names a tracked shadow.
    pub fn is_known_shadow(&self, token: usize) -> (r: bool)
        ensures
            r == (token < self.shadows@.len()),
    {
        token < self.shadows.len()
    }

    /// Fold explicit deltas into the pending buffers: the data delta is
    /// deep-updated into `pending_data`, then the heavy delta into
    /// `pending_heavy` (dotted keys expand as paths), and the signal value is
    /// appended. A step that fails leaves its buffer, and all later buffers,
    /// unchanged.
    pub fn update(&mut self, data: Option<&Val>, heavy: Option<&Val>, signal: Option<&Val>) -> (r: Result<(), EngineError>)
        requires
            old(self).wf(),
        ensures
            final(self).wf(),
            *final(self) == (Transaction {
                pending_data: final(self).pending_data,
                pending_heavy: final(self).pending_heavy,
                pending_signal: final(self).pending_signal,
                ..*old(self)
            }),
            ({
                let d_step: Result<ValModel, EngineError> = match data {
                    Some(d) => crate::value::upd_model(old(self).pending_data@, d@),
                    None => Ok(old(self).pending_data@),
                };
                match d_step {
                    Err(e) => {
                        &&& r == Err::<(), EngineError>(e)
                        &&& final(self).pending_data@ == old(self).pending_data@
                        &&& final(self).pending_heavy@ == old(self).pending_heavy@
                        &&& final(self).pending_signal@ == old(self).pending_signal@
                    },
                    Ok(pd2) => {
                        &&& final(self).pending_data@ == pd2
                        &&& {
                            let h_step: Result<ValModel, EngineError> = match heavy {
                                Some(h) => crate::value::upd_model(old(self).pending_heavy@, h@),
                                None => Ok(old(self).pending_heavy@),
                            };
                            match h_step {
                                Err(e) => {
                                    &&& r == Err::<(), EngineError>(e)
                                    &&& final(self).pending_heavy@ == old(self).pending_heavy@
                                    &&& final(self).pending_signal@ == old(self).pending_signal@
                                },
                                Ok(ph2) => {
                                    &&& r is Ok
                                    &&& final(self).pending_heavy@ == ph2
                                    &&& (match signal {
                                        Some(sv) => crate::state::signal_model(final(self).pending_signal@)
                                            == crate::state::signal_model(old(self).pending_signal@).push(sv@),
                                        None => final(self).pending_signal@ == old(self).pending_signal@,
                                    })
                                },
                            }
                        }
                    },
                }
            }),
    {
        if let Some(d) = data {
            match crate::value::deep_update_inplace(&mut self.pending_data, d) {
                Ok(()) => {},
                Err(e) => {
                    return Err(e);
                },
            }
        }
        if let Some(h) = heavy {
            match crate::value::deep_update_inplace(&mut self.pending_heavy, h) {
                Ok(()) => {},
                Err(e) => {
                    return Err(e);
                },
            }
        }
        if let Some(sv) = signal {
            let ghost pre = crate::state::signal_model(self.pending_signal@);
            self.pending_signal.push(sv.deep_copy());
            proof {
                assert(crate::state::signal_model(self.pending_signal@) =~= pre.push(sv@));
            }
        }
        Ok(())
    }

    /// Take (or find) the shadow for a path. A path already shadowed hands
    /// back its token with nothing changed. Otherwise a new shadow is taken:
    /// working copy and pristine copy both start as the live value, the pair
    /// is marked aliased in the Heavy zone, and the root is recorded for
    /// commit retrieval if it has no shadow yet.
    pub fn get_shadow(&mut self, live: &Val, path: &String) -> (token: usize)
        ensures
            ({
                let s0 = shadows_model(old(self).shadows@);
                let i = first_shadow(s0, path@);
                if i < s0.len() {
                    &&& *final(self) == *old(self)
                    &&& token == i
                } else {
                    &&& token == s0.len()
                    &&& *final(self) == (Transaction {
                        shadows: final(self).shadows,
                        path_to_shadow: final(self).path_to_shadow,
                        ..*old(self)
                    })
                    &&& final(self).shadows@.len() == old(self).shadows@.len() + 1
                    &&& final(self).shadows@.take(old(self).shadows@.len() as int) == old(self).shadows@
                    &&& ({
                        let e = final(self).shadows@.last()@;
                        &&& e.path_str == path@
                        &&& e.segs == crate::paths::spec_parse_path(path@)
                        &&& e.edited == live@
                        &&& e.pristine == live@
                        &&& e.aliased == (crate::zones::spec_zone_of(crate::paths::spec_parse_path(path@)) is Heavy)
                    })
                    &&& ({
                        let root = spec_root_of(path@);
                        let had = exists|j: int| 0 <= j < old(self).path_to_shadow@.len()
                            && (#[trigger] old(self).path_to_shadow@[j]).0@ == root;
                        if had {
                            final(self).path_to_shadow@ == old(self).path_to_shadow@
                        } else {
                            final(self).path_to_shadow@.len() == old(self).path_to_shadow@.len() + 1
                            && final(self).path_to_shadow@.take(old(self).path_to_shadow@.len() as int)
                                == old(self).path_to_shadow@
                            && final(self).path_to_shadow@.last().0@ == root
                            && final(self).path_to_shadow@.last().1 == token
                        }
                    })
                }
            }),
    {
        let ghost s0 = shadows_model(self.shadows@);
        let mut i: usize = 0;
        while i < self.shadows.len()
            invariant
                i <= self.shadows@.len(),
                s0 == shadows_model(self.shadows@),
                forall|j: int| 0 <= j < i ==> s0[j].path_str != path@,
            decreases self.shadows@.len() - i,
        {
            if self.shadows[i].path_str.eq(path) {
                proof {
                    lemma_first_shadow_at(s0, path@, i as int);
                }
                return i;
            }
            i = i + 1;
        }
        proof {
            lemma_first_shadow_none(s0, path@);
        }
        let segs = crate::paths::parse_path_segments(path.as_str());
        let zone = crate::zones::resolve_zone_segs(&segs);
        let aliased = crate::zones::is_absolute_ceiling(&zone) && false || (match zone {
            crate::zones::ContextZone::Heavy => true,
            _ => false,
        });
        let token = self.shadows.len();
        let entry = ShadowEntry {
            path_str: path.clone(),
            segs,
            edited: live.deep_copy(),
            pristine: live.deep_copy(),
            aliased,
        };
        let ghost pre = self.shadows@;
        self.shadows.push(entry);
        proof {
            assert(self.shadows@.take(pre.len() as int) =~= pre);
        }
        let root = root_of(path);
        let mut j: usize = 0;
        let mut seen = false;
        while j < self.path_to_shadow.len()
            invariant
                j <= self.path_to_shadow@.len(),
                seen == exists|t: int| 0 <= t < j && (#[trigger] self.path_to_shadow@[t]).0@ == root@,
            decreases self.path_to_shadow@.len() - j,
        {
            if self.path_to_shadow[j].0.eq(&root) {
                seen = true;
            }
            j = j + 1;
        }
        if !seen {
            let ghost p0 = self.path_to_shadow@;
            self.path_to_shadow.push((root, token));
            proof {
                assert(self.path_to_shadow@.take(p0.len() as int) =~= p0);
            }
        }
        token
    }

    /// Run differential inference once: for every shadow whose working copy
    /// drifted from its pristine value, append a write of the working copy at
    /// the shadow's path. Aliased (heavy) shadows are never compared. The
    /// second and later calls change nothing.
    pub fn infer_shadow_deltas(&mut self)
        ensures
            old(self).shadows_inferred ==> *final(self) == *old(self),
            !old(self).shadows_inferred ==> {
                &&& *final(self) == (Transaction {
                    delta_log: final(self).delta_log,
                    shadows_inferred: true,
                    ..*old(self)
                })
                &&& log_model(final(self).delta_log@) == log_model(old(self).delta_log@)
                    + inferred(shadows_model(old(self).shadows@))
            },
    {
        if self.shadows_inferred {
            return;
        }
        self.shadows_inferred = true;
        let ghost s0 = shadows_model(self.shadows@);
        let ghost l0 = log_model(self.delta_log@);
        proof {
            assert(s0.skip(0) =~= s0);
            assert(l0 + inferred(s0.skip(0)) =~= log_model(self.delta_log@) + inferred(s0));
        }
        let mut i: usize = 0;
        while i < self.shadows.len()
            invariant
                i <= self.shadows@.len(),
                s0 == shadows_model(self.shadows@),
                s0 == shadows_model(old(self).shadows@),
                l0 == log_model(old(self).delta_log@),
                *self == (Transaction { delta_log: self.delta_log, shadows_inferred: true, ..*old(self) }),
                log_model(self.delta_log@) + inferred(s0.skip(i as int)) =~= l0 + inferred(s0),
            decreases self.shadows@.len() - i,
        {
            let ghost cur = log_model(self.delta_log@);
            let ghost rest = s0.skip(i as int);
            proof {
                assert(rest[0] == s0[i as int]);
                assert(rest.drop_first() =~= s0.skip(i as int + 1));
            }
            let sh = &self.shadows[i];
            if !sh.aliased && !sh.edited.deep_eq(&sh.pristine) {
                let entry = DeltaEntry {
                    path_str: sh.path_str.clone(),
                    segs: segs_copy(&sh.segs),
                    op: DeltaOp::Write,
                    value: Some(sh.edited.deep_copy()),
                    old_value: Some(sh.pristine.deep_copy()),
                };
                let ghost pre = log_model(self.delta_log@);
                self.delta_log.push(entry);
                proof {
                    assert(log_model(self.delta_log@) =~= pre.push(self.delta_log@.last()@));
                    assert(self.delta_log@.last()@ == inferred(rest)[0]);
                    assert(cur + inferred(rest) =~= log_model(self.delta_log@) + inferred(rest.drop_first()));
                }
            } else {
                proof {
                    assert(inferred(rest) =~= inferred(rest.drop_first()));
                }
            }
            i = i + 1;
        }
        proof {
            assert(inferred(s0.skip(self.shadows@.len() as int)) =~= Seq::<DeltaModel>::empty());
            assert(log_model(self.delta_log@) =~= l0 + inferred(s0));
        }
    }

    /// Apply the delta log to the pending buffers: take the `Write` entries
    /// that carry a value, sort them stably by ascending path length (so a
    /// more specific child write always lands after its parent), and set each
    /// into the pending heavy buffer (Heavy-zone paths, `heavy.` stripped) or
    /// the pending data buffer. On failure nothing changes.
    pub fn commit(&mut self) -> (r: Result<(), EngineError>)
        requires
            old(self).wf(),
        ensures
            *final(self) == (Transaction {
                pending_data: final(self).pending_data,
                pending_heavy: final(self).pending_heavy,
                ..*old(self)
            }),
            ({
                let ds = sort_by_len(writes_with_values(log_model(old(self).delta_log@)));
                match apply_deltas(old(self).pending_data@, old(self).pending_heavy@, ds) {
                    Ok((d2, h2)) => {
                        &&& r is Ok
                        &&& final(self).pending_data@ == d2
                        &&& final(self).pending_heavy@ == h2
                    },
                    Err(e) => {
                        &&& r == Err::<(), EngineError>(e)
                        &&& final(self).pending_data@ == old(self).pending_data@
                        &&& final(self).pending_heavy@ == old(self).pending_heavy@
                    },
                }
            }),
    {
        let ghost l0 = log_model(self.delta_log@);
        // keep only the writes that carry a value
        let mut selected: Vec<DeltaEntry> = Vec::new();
        proof {
            assert(l0.skip(0) =~= l0);
            assert(log_model(selected@) + writes_with_values(l0.skip(0)) =~= writes_with_values(l0));
        }
        let mut i: usize = 0;
        while i < self.delta_log.len()
            invariant
                i <= self.delta_log@.len(),
                l0 == log_model(self.delta_log@),
                log_model(selected@) + writes_with_values(l0.skip(i as int)) =~= writes_with_values(l0),
            decreases self.delta_log@.len() - i,
        {
            let ghost cur = log_model(selected@);
            let ghost rest = l0.skip(i as int);
            proof {
                assert(rest[0] == l0[i as int]);
                assert(rest.drop_first() =~= l0.skip(i as int + 1));
            }
            let e = &self.delta_log[i];
            let keep = match (&e.op, &e.value) {
                (DeltaOp::Write, Some(_)) => true,
                _ => false,
            };
            if keep {
                let value_copy = match &e.value {
                    Some(v) => Some(v.deep_copy()),
                    None => None,
                };
                let old_copy = match &e.old_value {
                    Some(v) => Some(v.deep_copy()),
                    None => None,
                };
                let copy = DeltaEntry {
                    path_str: e.path_str.clone(),
                    segs: segs_copy(&e.segs),
                    op: e.op,
                    value: value_copy,
                    old_value: old_copy,
                };
                proof {
                    assert(copy@ == l0[i as int]);
                }
                let ghost pre = log_model(selected@);
                selected.push(copy);
                proof {
                    assert(log_model(selected@) =~= pre.push(l0[i as int]));
                    assert(cur + writes_with_values(rest) =~= log_model(selected@) + writes_with_values(rest.drop_first()));
                }
            } else {
                proof {
                    assert(writes_with_values(rest) =~= writes_with_values(rest.drop_first()));
                }
            }
            i = i + 1;
        }
        proof {
            assert(writes_with_values(l0.skip(self.delta_log@.len() as int)) =~= Seq::<DeltaModel>::empty());
            assert(log_model(selected@) =~= writes_with_values(l0));
        }
        let sorted = sort_deltas(selected);
        let ghost ds = log_model(sorted@);
        // apply into fresh copies; swap them in only when every write landed
        let mut pd = self.pending_data.deep_copy();
        let mut ph = self.pending_heavy.deep_copy();
        proof {
            assert(ds.skip(0) =~= ds);
        }
        let mut t: usize = 0;
        while t < sorted.len()
            invariant
                t <= sorted@.len(),
                ds == log_model(sorted@),
                ds == sort_by_len(writes_with_values(log_model(old(self).delta_log@))),
                apply_deltas(old(self).pending_data@, old(self).pending_heavy@, ds)
                    == apply_deltas(pd@, ph@, ds.skip(t as int)),
            decreases sorted@.len() - t,
        {
            let ghost rest = ds.skip(t as int);
            proof {
                assert(rest[0] == ds[t as int]);
                assert(sorted@[t as int]@ == ds[t as int]);
                assert(rest.drop_first() =~= ds.skip(t as int + 1));
            }
            let e = &sorted[t];
            let value = match &e.value {
                Some(v) => v.deep_copy(),
                None => Val::Null,
            };
            proof {
                if e.value is Some {
                    assert(value@ == ds[t as int].value->0);
                }
            }
            if e.value.is_some() {
                let zone = crate::zones::resolve_zone_segs(&e.segs);
                let is_heavy = match zone {
                    crate::zones::ContextZone::Heavy => true,
                    _ => false,
                };
                if is_heavy {
                    let pref = crate::paths::str_to_chars("heavy.");
                    let own = crate::paths::str_to_chars(e.path_str.as_str());
                    let strip = crate::paths::chars_has_prefix(&own, &pref);
                    let target_segs: Vec<Seg> = if strip && e.segs.len() > 0 {
                        let mut ts = segs_copy(&e.segs);
                        let _ = ts.remove(0);
                        proof {
                            assert(path_model(ts@) =~= ds[t as int].segs.drop_first());
                        }
                        ts
                    } else {
                        let ts = segs_copy(&e.segs);
                        proof {
                            if strip {
                                assert(ds[t as int].segs.len() == 0);
                                assert(path_model(ts@) =~= ds[t as int].segs.drop_first());
                            }
                        }
                        ts
                    };
                    proof {
                        assert(path_model(target_segs@) =~= heavy_target_segs(ds[t as int]));
                    }
                    match crate::value::set_nested_value(&mut ph, &target_segs, value) {
                        Ok(()) => {},
                        Err(e2) => {
                            proof {
                                assert(apply_deltas(pd@, ph@, rest) == Err::<(ValModel, ValModel), EngineError>(e2));
                            }
                            return Err(e2);
                        },
                    }
                } else {
                    match crate::value::set_nested_value(&mut pd, &e.segs, value) {
                        Ok(()) => {},
                        Err(e2) => {
                            proof {
                                assert(apply_deltas(pd@, ph@, rest) == Err::<(ValModel, ValModel), EngineError>(e2));
                            }
                            return Err(e2);
                        },
                    }
                }
            }
            t = t + 1;
        }
        proof {
            assert(ds.skip(sorted@.len() as int) =~= Seq::<DeltaModel>::empty());
        }
        self.pending_data = pd;
        self.pending_heavy = ph;
        Ok(())
    }

    /// The pending data as a fresh tree: inference runs first, then every
    /// logged write with a value is replayed in issue order into an empty
    /// dict, and the explicit pending updates are deep-updated over it.
    pub fn build_pending_from_deltas(&mut self) -> (r: Result<Val, EngineError>)
        requires
            old(self).wf(),
        ensures
            old(self).shadows_inferred ==> *final(self) == *old(self),
            !old(self).shadows_inferred ==> *final(self) == (Transaction {
                delta_log: final(self).delta_log,
                shadows_inferred: true,
                ..*old(self)
            }) && log_model(final(self).delta_log@) == log_model(old(self).delta_log@)
                + inferred(shadows_model(old(self).shadows@)),
            ({
                let empty_dict = ValModel::Dict(Seq::empty());
                match replay(empty_dict, log_model(final(self).delta_log@)) {
                    Ok(base) => match crate::value::upd_model(base, old(self).pending_data@) {
                        Ok(built) => r matches Ok(v) && v@ == built,
                        Err(e) => r == Err::<Val, EngineError>(e),
                    },
                    Err(e) => r == Err::<Val, EngineError>(e),
                }
            }),
    {
        self.infer_shadow_deltas();
        let ghost l0 = log_model(self.delta_log@);
        let mut result = Val::Dict(Vec::new());
        proof {
            crate::value::lemma_dict_entries(result);
            assert(result@->Dict_0 =~= Seq::<(Seq<char>, ValModel)>::empty());
            assert(result@ =~~= ValModel::Dict(Seq::<(Seq<char>, ValModel)>::empty()));
            assert(l0.skip(0) =~= l0);
        }
        let mut i: usize = 0;
        while i < self.delta_log.len()
            invariant
                i <= self.delta_log@.len(),
                l0 == log_model(self.delta_log@),
                replay(ValModel::Dict(Seq::empty()), l0) == replay(result@, l0.skip(i as int)),
                old(self).shadows_inferred ==> *self == *old(self),
                !old(self).shadows_inferred ==> *self == (Transaction {
                    delta_log: self.delta_log,
                    shadows_inferred: true,
                    ..*old(self)
                }) && log_model(self.delta_log@) == log_model(old(self).delta_log@)
                    + inferred(shadows_model(old(self).shadows@)),
            decreases self.delta_log@.len() - i,
        {
            let ghost rest = l0.skip(i as int);
            proof {
                assert(rest[0] == l0[i as int]);
                assert(self.delta_log@[i as int]@ == l0[i as int]);
                assert(rest.drop_first() =~= l0.skip(i as int + 1));
            }
            let e = &self.delta_log[i];
            let keep = match (&e.op, &e.value) {
                (DeltaOp::Write, Some(_)) => true,
                _ => false,
            };
            if keep {
                let value = match &e.value {
                    Some(v) => v.deep_copy(),
                    None => Val::Null,
                };
                match crate::value::set_nested_value(&mut result, &e.segs, value) {
                    Ok(()) => {},
                    Err(e2) => {
                        proof {
                            assert(replay(result@, rest) == Err::<ValModel, EngineError>(e2));
                        }
                        return Err(e2);
                    },
                }
            }
            i = i + 1;
        }
        proof {
            assert(l0.skip(self.delta_log@.len() as int) =~= Seq::<DeltaModel>::empty());
        }
        let pending = self.pending_data.deep_copy();
        match crate::value::deep_update_inplace(&mut result, &pending) {
            Ok(()) => Ok(result),
            Err(e) => Err(e),
        }
    }

    /// The pending heavy tree, as currently buffered.
    pub fn pending_heavy_value(&self) -> (r: Val)
        ensures
            r@ == self.pending_heavy@,
    {
        self.pending_heavy.deep_copy()
    }

    /// The pending signals, as currently buffered.
    pub fn pending_signal_values(&self) -> (r: Vec<Val>)
        ensures
            crate::state::signal_model(r@) =~= crate::state::signal_model(self.pending_signal@),
    {
        let mut out: Vec<Val> = Vec::new();
        let mut i: usize = 0;
        while i < self.pending_signal.len()
            invariant
                i <= self.pending_signal@.len(),
                out@.len() == i as int,
                forall|j: int| 0 <= j < i ==> out@[j]@ == self.pending_signal@[j]@,
            decreases self.pending_signal@.len() - i,
        {
            out.push(self.pending_signal[i].deep_copy());
            i = i + 1;
        }
        out
    }

    /// The root-level working copies this session would commit: for every
    /// logged write whose root path has a shadow, the root is bound to that
    /// shadow's working copy; the explicit pending updates overwrite on top.
    pub fn get_shadow_updates(&self) -> (r: Val)
        requires
            self.wf(),
        ensures
            r@ is Dict,
            r@->Dict_0 == set_all(
                shadow_updates(
                    log_model(self.delta_log@),
                    p2s_model(self.path_to_shadow@),
                    shadows_model(self.shadows@),
                    Seq::empty(),
                ),
                self.pending_data@->Dict_0,
            ),
    {
        let ghost l0 = log_model(self.delta_log@);
        let ghost p0 = p2s_model(self.path_to_shadow@);
        let ghost s0 = shadows_model(self.shadows@);
        let mut acc: Vec<(String, Val)> = Vec::new();
        proof {
            assert(l0.skip(0) =~= l0);
            assert(crate::value::entries_model(acc@) =~= Seq::<(Seq<char>, ValModel)>::empty());
        }
        let mut i: usize = 0;
        while i < self.delta_log.len()
            invariant
                i <= self.delta_log@.len(),
                l0 == log_model(self.delta_log@),
                p0 == p2s_model(self.path_to_shadow@),
                s0 == shadows_model(self.shadows@),
                shadow_updates(l0, p0, s0, Seq::empty())
                    == shadow_updates(l0.skip(i as int), p0, s0, crate::value::entries_model(acc@)),
            decreases self.delta_log@.len() - i,
        {
            let ghost rest = l0.skip(i as int);
            let ghost cur = crate::value::entries_model(acc@);
            proof {
                assert(rest[0] == l0[i as int]);
                assert(self.delta_log@[i as int]@ == l0[i as int]);
                assert(rest.drop_first() =~= l0.skip(i as int + 1));
            }
            let root = root_of(&self.delta_log[i].path_str);
            let hit = p2s_lookup(&self.path_to_shadow, &root);
            match hit {
                Some(idx) => {
                    if idx < self.shadows.len() {
                        let edited = self.shadows[idx].edited.deep_copy();
                        crate::value::entries_set(&mut acc, root, edited);
                    }
                },
                None => {},
            }
            i = i + 1;
        }
        proof {
            assert(l0.skip(self.delta_log@.len() as int) =~= Seq::<DeltaModel>::empty());
        }
        // explicit pending updates overwrite the collected roots
        let pes: Vec<(String, Val)> = match &self.pending_data {
            Val::Dict(es) => crate::value::entries_copy(es),
            _ => Vec::new(),
        };
        proof {
            crate::value::lemma_dict_entries(self.pending_data);
            assert(crate::value::entries_model(pes@) =~= self.pending_data@->Dict_0);
        }
        let ghost pe0 = self.pending_data@->Dict_0;
        proof {
            assert(pe0.skip(0) =~= pe0);
        }
        let mut t: usize = 0;
        while t < pes.len()
            invariant
                t <= pes@.len(),
                pe0 =~= crate::value::entries_model(pes@),
                set_all(
                    shadow_updates(l0, p0, s0, Seq::empty()),
                    pe0,
                ) == set_all(crate::value::entries_model(acc@), pe0.skip(t as int)),
            decreases pes@.len() - t,
        {
            let ghost rest = pe0.skip(t as int);
            proof {
                assert(rest[0] == (pes@[t as int].0@, pes@[t as int].1@));
                assert(rest.drop_first() =~= pe0.skip(t as int + 1));
            }
            let k = pes[t].0.clone();
            let v = pes[t].1.deep_copy();
            crate::value::entries_set(&mut acc, k, v);
            t = t + 1;
        }
        proof {
            assert(pe0.skip(pes@.len() as int) =~= Seq::<(Seq<char>, ValModel)>::empty());
        }
        let out = Val::Dict(acc);
        proof {
            crate::value::lemma_dict_entries(out);
        }
        out
    }

    /// Close the session against the engine at the given host time. A
    /// pending error discards everything. Past the timeout the close fails
    /// `WriteTimeout` and discards. Otherwise: infer deltas, replay the log
    /// into the pending buffers, advance the engine state by one version with
    /// them, validate the attached schema (failing `SchemaViolation` with no
    /// swap and no flush), swap the state in, and flush the outbox in order.
    pub fn close(&mut self, engine: &mut TheusEngine, now_ms: u64, error_pending: bool) -> (r: Result<(), EngineError>)
        requires
            old(self).wf(),
            old(engine).state.wf(),
            old(engine).state.version < u64::MAX,
        ensures
            final(engine).worker_attached == old(engine).worker_attached,
            final(engine).audit_attached == old(engine).audit_attached,
            final(engine).schema == old(engine).schema,
            final(engine).strict_guards == old(engine).strict_guards,
            final(engine).strict_cas == old(engine).strict_cas,
            final(engine).conflict == old(engine).conflict,
            error_pending ==> *final(self) == *old(self) && *final(engine) == *old(engine) && r is Ok,
            r is Err ==> final(engine).state == old(engine).state
                && final(engine).outbox == old(engine).outbox,
            ({
                let timed_out = match old(self).start_ms {
                    Some(start) => now_ms > start && now_ms - start > old(self).write_timeout_ms,
                    None => false,
                };
                !error_pending ==> (if timed_out {
                    r == Err::<(), EngineError>(EngineError::WriteTimeout)
                } else {
                    let ds = sort_by_len(writes_with_values(closed_log(*old(self))));
                    match apply_deltas(old(self).pending_data@, old(self).pending_heavy@, ds) {
                        Err(e2) => r == Err::<(), EngineError>(e2),
                        Ok(bufs) => {
                            let merged = crate::value::merge_model(old(engine).state.data@, bufs.0);
                            let schema_ok = match old(engine).schema {
                                Some(sch) => crate::engine::spec_schema_ok(sch.required@, merged),
                                None => true,
                            };
                            if schema_ok {
                                &&& r is Ok
                                &&& final(engine).state.version == old(engine).state.version + 1
                                &&& updated_from_transaction(*old(self), old(engine).state, final(engine).state)
                                &&& final(engine).outbox.messages@ == old(engine).outbox.messages@
                                    + old(self).pending_outbox.messages@
                                &&& final(self).pending_outbox.messages@.len() == 0
                            } else {
                                r == Err::<(), EngineError>(EngineError::SchemaViolation)
                            }
                        },
                    }
                })
            }),
    {
        if error_pending {
            return Ok(());
        }
        match self.start_ms {
            Some(start) => {
                if now_ms > start && now_ms - start > self.write_timeout_ms {
                    return Err(EngineError::WriteTimeout);
                }
            },
            None => {},
        }
        self.infer_shadow_deltas();
        let ghost tx1 = *self;
        match self.commit() {
            Ok(()) => {},
            Err(e) => {
                return Err(e);
            },
        }
        proof {
            assert(log_model(tx1.delta_log@) =~= closed_log(*old(self)));
            let ds = sort_by_len(writes_with_values(log_model(tx1.delta_log@)));
            lemma_apply_deltas_dict(tx1.pending_data@, tx1.pending_heavy@, ds);
        }
        let new_state = match engine.state.update(
            Some(&self.pending_data),
            Some(&self.pending_heavy),
            Some(&self.pending_signal),
        ) {
            Ok(ns) => ns,
            Err(e) => {
                return Err(e);
            },
        };
        if let Some(sch) = &engine.schema {
            if !sch.validate(&new_state.data) {
                return Err(EngineError::SchemaViolation);
            }
        }
        engine.commit_state(new_state);
        self.flush_outbox(engine);
        Ok(())
    }

    /// Write a value into one shadow's working copy at a relative path (the
    /// whole copy is replaced at the empty path); the rest of the session is
    /// untouched. On failure nothing changes.
    pub fn shadow_write(&mut self, token: usize, rel: &Vec<Seg>, value: Val) -> (r: Result<(), EngineError>)
        requires
            token < old(self).shadows@.len(),
        ensures
            *final(self) == (Transaction { shadows: final(self).shadows, ..*old(self) }),
            final(self).shadows@.len() == old(self).shadows@.len(),
            forall|j: int| 0 <= j < old(self).shadows@.len() && j != token ==> final(self).shadows@[j]
                == old(self).shadows@[j],
            ({
                let e0 = old(self).shadows@[token as int];
                let e1 = final(self).shadows@[token as int];
                &&& e1.path_str == e0.path_str
                &&& e1.segs == e0.segs
                &&& e1.pristine == e0.pristine
                &&& e1.aliased == e0.aliased
                &&& (match crate::value::place_at(e0.edited@, path_model(rel@), value@) {
                    Ok(ne) => r is Ok && e1.edited@ == ne,
                    Err(e) => r == Err::<(), EngineError>(e) && e1.edited@ == e0.edited@,
                })
            }),
    {
        let entry = &mut self.shadows[token];
        if rel.len() == 0 {
            entry.edited = value;
            Ok(())
        } else {
            crate::value::set_nested_value(&mut entry.edited, rel, value)
        }
    }

    /// The value one shadow's working copy holds at a relative path.
    pub fn shadow_read(&self, token: usize, rel: &Vec<Seg>) -> (r: Option<Val>)
        requires
            token < self.shadows@.len(),
        ensures
            match r {
                Some(v) => crate::value::get_path(self.shadows@[token as int].edited@, path_model(rel@)) == Some(v@),
                None => crate::value::get_path(self.shadows@[token as int].edited@, path_model(rel@)) is None,
            },
    {
        proof {
            assert(path_model(rel@).skip(0) =~= path_model(rel@));
        }
        match self.shadows[token].edited.get_at_path(rel, 0) {
            Some(v) => Some(v.deep_copy()),
            None => None,
        }
    }

    /// Move every queued message into the engine outbox, keeping order.
    pub fn flush_outbox(&mut self, engine: &mut TheusEngine)
        ensures
            final(self).pending_outbox.messages@.len() == 0,
            final(engine).outbox.messages@ == old(engine).outbox.messages@ + old(self).pending_outbox.messages@,
            *final(self) == (Transaction { pending_outbox: final(self).pending_outbox, ..*old(self) }),
            *final(engine) == (TheusEngine { outbox: final(engine).outbox, ..*old(engine) }),
    {
        let mut msgs = self.pending_outbox.drain();
        let ghost all = msgs@;
        let ghost pre = engine.outbox.messages@;
        proof {
            assert(pre + all.take(0) =~= pre);
            assert(all.skip(0) =~= all);
        }
        while msgs.len() > 0
            invariant
                msgs@.len() <= all.len(),
                msgs@ == all.skip(all.len() - msgs@.len()),
                engine.outbox.messages@ == pre + all.take(all.len() - msgs@.len()),
                *engine == (TheusEngine { outbox: engine.outbox, ..*old(engine) }),
            decreases msgs@.len(),
        {
            let ghost done = all.len() - msgs@.len();
            let m = msgs.remove(0);
            proof {
                assert(m == all[done]);
                assert(msgs@ =~= all.skip(done + 1));
            }
            let ghost mid = engine.outbox.messages@;
            engine.outbox.add(m);
            proof {
                assert(engine.outbox.messages@ =~= pre + all.take(done + 1));
            }
        }
        proof {
            assert(all.take(all.len() as int) =~= all);
        }
    }
}

} // verus!
