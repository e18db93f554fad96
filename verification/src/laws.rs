//! The engine's cross-cutting guarantees, stated and proved once.
//!
//! Each law here relates contracts from several modules: version
//! monotonicity, sibling preservation under deep update, the Constant
//! ceiling, Private-zone visibility, and field-level compare-and-swap
//! letting disjoint writers through.
use vstd::prelude::*;
use crate::value::{ValModel, dict_get, upd_entries};
use crate::state::{State, updated_from, klm_get, klm_set, klm_stamp_fields, klm_stamp_delta, klm_stamp_opt, lemma_klm_set_get};
use crate::engine::{cas_entry_safe, cas_opt_safe};
use crate::transaction::Transaction;
use crate::proxy::{spec_effective_caps, CAP_FULL};
use crate::zones::{spec_has_cap, spec_zone_of, spec_get_override, CAP_READ, CAP_APPEND, CAP_UPDATE, CAP_DELETE, CAP_ADMIN};

verus! {

/// Every successful update advances the version by exactly one: a state
/// standing in the update relation to its predecessor, as every committed
/// close and compare-and-swap ensures, is one version ahead.
pub proof fn lemma_monotonic_version(prior: State, ns: State, d: Option<ValModel>, h: Option<ValModel>, sv: Option<Seq<ValModel>>)
    requires
        updated_from(prior, ns, d, h, sv),
    ensures
        ns.version == prior.version + 1,
{
}

/// Deep update never touches siblings: a key bound in the target, named by
/// no update entry (and shadowed by no dotted update key), is bound to the
/// same value after the update.
pub proof fn lemma_update_keeps_siblings(
    ts: Seq<(Seq<char>, ValModel)>,
    us: Seq<(Seq<char>, ValModel)>,
    k: Seq<char>,
)
    requires
        forall|j: int| 0 <= j < us.len() ==> (#[trigger] us[j].0) != k && !us[j].0.contains('.'),
        upd_entries(ts, us) is Ok,
    ensures
        dict_get(upd_entries(ts, us)->Ok_0, k) == dict_get(ts, k),
    decreases us.len(),
{
    if us.len() > 0 {
        let k0 = us[0].0;
        let v = us[0].1;
        let stepped = match dict_get(ts, k0) {
            Some(old) => if old is Dict && v is Dict {
                crate::value::dict_set(ts, k0, ValModel::Dict(upd_entries(old->Dict_0, v->Dict_0)->Ok_0))
            } else {
                crate::value::dict_set(ts, k0, v)
            },
            None => crate::value::dict_set(ts, k0, v),
        };
        match dict_get(ts, k0) {
            Some(old) => {
                if old is Dict && v is Dict {
                    crate::value::lemma_dict_set_get(ts, k0, ValModel::Dict(upd_entries(old->Dict_0, v->Dict_0)->Ok_0), k);
                } else {
                    crate::value::lemma_dict_set_get(ts, k0, v, k);
                }
            },
            None => {
                crate::value::lemma_dict_set_get(ts, k0, v, k);
            },
        }
        assert(dict_get(stepped, k) == dict_get(ts, k));
        assert forall|j: int| 0 <= j < us.drop_first().len() implies (#[trigger] us.drop_first()[j].0) != k
            && !us.drop_first()[j].0.contains('.') by {
            assert(us.drop_first()[j] == us[j + 1]);
        }
        lemma_update_keeps_siblings(stepped, us.drop_first(), k);
    }
}

/// The Constant zone is an absolute ceiling: at a path in it, no effective
/// capability mask — admin or otherwise, overridden or not — carries
/// APPEND, UPDATE or DELETE. Child proxies store this same effective mask,
/// so a wrapped Constant-zone container cannot be mutated by any collection
/// operation either.
pub proof fn lemma_constant_ceiling(caps: u8, tbl: Seq<(Seq<char>, u8)>, path: Seq<char>)
    requires
        spec_zone_of(crate::paths::spec_parse_path(path)) is Constant,
    ensures
        !spec_has_cap(spec_effective_caps(caps, tbl, path), CAP_APPEND),
        !spec_has_cap(spec_effective_caps(caps, tbl, path), CAP_UPDATE),
        !spec_has_cap(spec_effective_caps(caps, tbl, path), CAP_DELETE),
{
    assert(spec_effective_caps(caps, tbl, path) == caps & 1u8);
    assert((caps & 1u8) & 2u8 == 0) by (bit_vector);
    assert((caps & 1u8) & 4u8 == 0) by (bit_vector);
    assert((caps & 1u8) & 8u8 == 0) by (bit_vector);
}

/// The Constant ceiling also binds the guard surface: at a path in the
/// Constant zone, the capability mask a guard computes — for any policy,
/// any override table, admin or not — carries no APPEND, UPDATE or DELETE,
/// so the guarded write path refuses every writer there.
pub proof fn lemma_constant_ceiling_guard(g: crate::guards::ContextGuard, tbl: Seq<(Seq<char>, u8)>, path: Seq<char>)
    requires
        spec_zone_of(crate::paths::spec_parse_path(path)) is Constant,
    ensures
        !spec_has_cap(g.spec_guard_caps(tbl, path), CAP_APPEND),
        !spec_has_cap(g.spec_guard_caps(tbl, path), CAP_UPDATE),
        !spec_has_cap(g.spec_guard_caps(tbl, path), CAP_DELETE),
{
    let license: u8 = if g.is_admin || crate::guards::any_rule_matches(crate::guards::strs_model(g.outputs@), path) {
        CAP_READ | CAP_APPEND | CAP_UPDATE | CAP_DELETE
    } else {
        CAP_READ
    };
    assert(g.spec_guard_caps(tbl, path) == 1u8 & license);
    let l = license;
    assert((1u8 & l) & 2u8 == 0) by (bit_vector);
    assert((1u8 & l) & 4u8 == 0) by (bit_vector);
    assert((1u8 & l) & 8u8 == 0) by (bit_vector);
}

/// Private paths are hidden, not forbidden: without an override, a mask
/// without the admin bit cannot read a Private path (the proxy then yields a
/// silent null), while any mask with the admin bit can.
pub proof fn lemma_private_visibility(caps: u8, tbl: Seq<(Seq<char>, u8)>, path: Seq<char>)
    requires
        spec_zone_of(crate::paths::spec_parse_path(path)) is Private,
        spec_get_override(tbl, path) is None,
    ensures
        caps & CAP_ADMIN == 0 ==> !spec_has_cap(spec_effective_caps(caps, tbl, path), CAP_READ),
        caps & CAP_ADMIN != 0 ==> spec_has_cap(spec_effective_caps(caps, tbl, path), CAP_READ),
{
    if caps & CAP_ADMIN == 0 {
        assert(spec_effective_caps(caps, tbl, path) == caps & 0u8);
        assert((caps & 0u8) & 1u8 == 0) by (bit_vector);
    } else {
        assert(spec_effective_caps(caps, tbl, path) == CAP_FULL);
        assert(31u8 & 1u8 != 0) by (bit_vector);
    }
}

/// Whether stamping the delta touches the path: some entry's key is the
/// path, or some dict-valued entry has a field whose `key.field` is it.
pub open spec fn delta_stamps(es: Seq<(Seq<char>, ValModel)>, p: Seq<char>) -> bool {
    exists|j: int| 0 <= j < es.len() && ((#[trigger] es[j].0) == p || (es[j].1 is Dict
        && exists|f: int| 0 <= f < es[j].1->Dict_0.len() && es[j].0 + seq!['.'] + #[trigger] es[j].1->Dict_0[f].0 == p))
}

/// Whether an optional delta stamps the path.
pub open spec fn opt_stamps(d: Option<ValModel>, p: Seq<char>) -> bool {
    match d {
        Some(dm) => dm is Dict && delta_stamps(dm->Dict_0, p),
        None => false,
    }
}

/// Stamping fields under a root leaves every other path's version alone.
pub proof fn lemma_stamp_fields_other(klm: Seq<(Seq<char>, u64)>, root: Seq<char>, fs: Seq<(Seq<char>, ValModel)>, v: u64, p: Seq<char>)
    requires
        forall|f: int| 0 <= f < fs.len() ==> root + seq!['.'] + (#[trigger] fs[f].0) != p,
    ensures
        klm_get(klm_stamp_fields(klm, root, fs, v), p) == klm_get(klm, p),
    decreases fs.len(),
{
    if fs.len() > 0 {
        lemma_klm_set_get(klm, root + seq!['.'] + fs[0].0, v, p);
        assert forall|f: int| 0 <= f < fs.drop_first().len() implies root + seq!['.'] + (#[trigger] fs.drop_first()[f].0) != p by {
            assert(fs.drop_first()[f] == fs[f + 1]);
        }
        lemma_stamp_fields_other(klm_set(klm, root + seq!['.'] + fs[0].0, v), root, fs.drop_first(), v, p);
    }
}

/// Stamping a delta leaves every path it does not stamp alone.
pub proof fn lemma_stamp_delta_other(klm: Seq<(Seq<char>, u64)>, es: Seq<(Seq<char>, ValModel)>, v: u64, p: Seq<char>)
    requires
        !delta_stamps(es, p),
    ensures
        klm_get(klm_stamp_delta(klm, es, v), p) == klm_get(klm, p),
    decreases es.len(),
{
    if es.len() > 0 {
        let k = es[0].0;
        assert(k != p);
        lemma_klm_set_get(klm, k, v, p);
        let base = klm_set(klm, k, v);
        let stamped = if es[0].1 is Dict {
            klm_stamp_fields(base, k, es[0].1->Dict_0, v)
        } else {
            base
        };
        if es[0].1 is Dict {
            assert forall|f: int| 0 <= f < es[0].1->Dict_0.len() implies k + seq!['.'] + (#[trigger] es[0].1->Dict_0[f].0) != p by {
            }
            lemma_stamp_fields_other(base, k, es[0].1->Dict_0, v, p);
        }
        assert(klm_get(stamped, p) == klm_get(klm, p));
        assert(!delta_stamps(es.drop_first(), p)) by {
            if delta_stamps(es.drop_first(), p) {
                let j = choose|j: int| 0 <= j < es.drop_first().len() && ((#[trigger] es.drop_first()[j].0) == p
                    || (es.drop_first()[j].1 is Dict && exists|f: int| 0 <= f < es.drop_first()[j].1->Dict_0.len()
                        && es.drop_first()[j].0 + seq!['.'] + #[trigger] es.drop_first()[j].1->Dict_0[f].0 == p));
                assert(es.drop_first()[j] == es[j + 1]);
                assert(delta_stamps(es, p));
            }
        }
        lemma_stamp_delta_other(stamped, es.drop_first(), v, p);
    }
}

/// The paths a compare-and-swap checks for one delta entry.
pub open spec fn entry_checks(key: Seq<char>, v: ValModel, p: Seq<char>) -> bool {
    if v is Dict {
        exists|f: int| 0 <= f < v->Dict_0.len() && key + seq!['.'] + (#[trigger] v->Dict_0[f].0) == p
    } else {
        key == p
    }
}

/// The paths a compare-and-swap checks across a whole optional delta.
pub open spec fn opt_checks(d: Option<ValModel>, p: Seq<char>) -> bool {
    match d {
        Some(dm) => dm is Dict && exists|i: int| 0 <= i < dm->Dict_0.len()
            && entry_checks((#[trigger] dm->Dict_0[i]).0, dm->Dict_0[i].1, p),
        None => false,
    }
}

/// Field-level compare-and-swap lets disjoint writers through: a delta that
/// was safe against the expected version stays safe after another delta that
/// stamps none of its checked paths is stamped — so two writers on disjoint
/// field sets both pass the smart check, whatever versions their commits
/// stamp.
pub proof fn lemma_smart_cas_disjoint(
    klm: Seq<(Seq<char>, u64)>,
    stamped: Option<ValModel>,
    checked: Option<ValModel>,
    expected: u64,
    newv: u64,
)
    requires
        cas_opt_safe(klm, checked, expected),
        forall|p: Seq<char>| opt_checks(checked, p) ==> !opt_stamps(stamped, p),
    ensures
        cas_opt_safe(klm_stamp_opt(klm, stamped, newv), checked, expected),
{
    let klm1 = klm_stamp_opt(klm, stamped, newv);
    match checked {
        Some(dm) => {
            if dm is Dict {
                assert forall|i: int| 0 <= i < dm->Dict_0.len() implies cas_entry_safe(klm1, (#[trigger] dm->Dict_0[i]).0, dm->Dict_0[i].1, expected) by {
                    let key = dm->Dict_0[i].0;
                    let v = dm->Dict_0[i].1;
                    assert(cas_entry_safe(klm, key, v, expected));
                    if v is Dict {
                        assert forall|f: int| 0 <= f < v->Dict_0.len() implies (match klm_get(klm1, key + seq!['.'] + #[trigger] v->Dict_0[f].0) {
                            Some(ver) => ver <= expected,
                            None => true,
                        }) by {
                            let p = key + seq!['.'] + v->Dict_0[f].0;
                            assert(entry_checks(key, v, p));
                            assert(opt_checks(checked, p));
                            assert(!opt_stamps(stamped, p));
                            match stamped {
                                Some(sm) => {
                                    if sm is Dict {
                                        lemma_stamp_delta_other(klm, sm->Dict_0, newv, p);
                                    }
                                },
                                None => {},
                            }
                            assert(klm_get(klm1, p) == klm_get(klm, p));
                        }
                    } else {
                        let p = key;
                        assert(entry_checks(key, v, p));
                        assert(opt_checks(checked, p));
                        match stamped {
                            Some(sm) => {
                                if sm is Dict {
                                    lemma_stamp_delta_other(klm, sm->Dict_0, newv, p);
                                }
                            },
                            None => {},
                        }
                        assert(klm_get(klm1, p) == klm_get(klm, p));
                    }
                }
            }
        },
        None => {},
    }
}

/// An in-place list append, tracked only through its shadow and its one
/// proxy-recorded delta, commits: with a fresh session holding exactly one
/// shadow (the container at `rootk`, whose working copy differs from its
/// pristine value only by the appended element under `itemk`) and exactly
/// one recorded write (at `rootk.itemk`, carrying the post-append list), the
/// closed log holds exactly one write at `rootk.itemk`, and replaying it
/// into the pending buffers binds the appended list under `rootk.itemk`.
pub proof fn lemma_list_append_commits(t1: Transaction, rootk: Seq<char>, itemk: Seq<char>, dv: Seq<(Seq<char>, ValModel)>, l0: Seq<ValModel>, x: ValModel)
    requires
        t1.wf(),
        !t1.shadows_inferred,
        t1.pending_data@ is Dict && t1.pending_data@->Dict_0.len() == 0,
        t1.pending_heavy@ is Dict && t1.pending_heavy@->Dict_0.len() == 0,
        crate::transaction::shadows_model(t1.shadows@).len() == 1,
        crate::transaction::log_model(t1.delta_log@).len() == 1,
        ({
            let sh = crate::transaction::shadows_model(t1.shadows@)[0];
            let d = crate::transaction::log_model(t1.delta_log@)[0];
            let child = rootk + seq!['.'] + itemk;
            let l1 = l0.push(x);
            &&& sh.path_str == rootk
            &&& !sh.aliased
            &&& sh.pristine == ValModel::Dict(dv)
            &&& dict_get(dv, itemk) == Some(ValModel::List(l0))
            &&& sh.edited == ValModel::Dict(crate::value::dict_set(dv, itemk, ValModel::List(l1)))
            &&& sh.segs == seq![crate::paths::SegModel::Key(rootk)]
            &&& d.path_str == child
            &&& d.op == crate::transaction::DeltaOp::Write
            &&& d.value == Some(ValModel::List(l1))
            &&& d.segs == seq![
                crate::paths::SegModel::Key(rootk),
                crate::paths::SegModel::Key(itemk),
            ]
            &&& !(crate::zones::spec_zone_of(d.segs) is Heavy)
            &&& !(crate::zones::spec_zone_of(seq![crate::paths::SegModel::Key(rootk)]) is Heavy)
        }),
    ensures
        ({
            let child = rootk + seq!['.'] + itemk;
            let cl = crate::transaction::closed_log(t1);
            &&& cl.len() == 2
            &&& (forall|i: int| 0 <= i < cl.len() ==> ((#[trigger] cl[i].path_str) == child <==> i == 0))
        }),
        ({
            let child = rootk + seq!['.'] + itemk;
            let l1 = l0.push(x);
            let ds = crate::transaction::sort_by_len(crate::transaction::writes_with_values(crate::transaction::closed_log(t1)));
            match crate::transaction::apply_deltas(t1.pending_data@, t1.pending_heavy@, ds) {
                Ok(bufs) => crate::value::get_path(bufs.0, seq![
                    crate::paths::SegModel::Key(rootk),
                    crate::paths::SegModel::Key(itemk),
                ]) == Some(ValModel::List(l1)),
                Err(_) => false,
            }
        }),
{
    let sm = crate::transaction::shadows_model(t1.shadows@);
    let sh = sm[0];
    let d = crate::transaction::log_model(t1.delta_log@)[0];
    let child = rootk + seq!['.'] + itemk;
    let l1 = l0.push(x);
    let edited = ValModel::Dict(crate::value::dict_set(dv, itemk, ValModel::List(l1)));

    // the working copy differs from the pristine value: the list grew
    crate::value::lemma_dict_set_get(dv, itemk, ValModel::List(l1), itemk);
    assert(dict_get(crate::value::dict_set(dv, itemk, ValModel::List(l1)), itemk) == Some(ValModel::List(l1)));
    assert(l1.len() == l0.len() + 1);
    assert(sh.edited != sh.pristine);

    // inference adds exactly the root write
    let inf = crate::transaction::inferred(sm);
    assert(sm.drop_first() =~= Seq::<crate::transaction::ShadowModel>::empty());
    let root_d = crate::transaction::DeltaModel {
        path_str: sh.path_str,
        segs: sh.segs,
        op: crate::transaction::DeltaOp::Write,
        value: Some(sh.edited),
        old_value: Some(sh.pristine),
    };
    assert(crate::transaction::inferred(sm.drop_first()) =~= Seq::<crate::transaction::DeltaModel>::empty());
    assert(inf =~= seq![root_d]);
    let cl = crate::transaction::closed_log(t1);
    assert(cl =~= seq![d, root_d]);
    assert(child.len() == rootk.len() + 1 + itemk.len());
    assert(cl[0].path_str == child && cl[1].path_str == rootk);
    assert forall|i: int| 0 <= i < cl.len() implies ((#[trigger] cl[i].path_str) == child <==> i == 0) by {
        if i == 1 {
            assert(rootk.len() < child.len());
        }
    }

    // both writes carry values, and the shorter root path sorts first
    let ws = crate::transaction::writes_with_values(cl);
    assert(cl.drop_first() =~= seq![root_d]);
    assert(seq![root_d].drop_first() =~= Seq::<crate::transaction::DeltaModel>::empty());
    assert(crate::transaction::writes_with_values(Seq::<crate::transaction::DeltaModel>::empty())
        =~= Seq::<crate::transaction::DeltaModel>::empty());
    assert(crate::transaction::writes_with_values(seq![root_d]) =~= seq![root_d]);
    assert(ws =~= seq![d, root_d]);
    let ds = crate::transaction::sort_by_len(ws);
    assert(ws.drop_last() =~= seq![d]);
    assert(seq![d].drop_last() =~= Seq::<crate::transaction::DeltaModel>::empty());
    assert(crate::transaction::sort_by_len(Seq::<crate::transaction::DeltaModel>::empty())
        =~= Seq::<crate::transaction::DeltaModel>::empty());
    assert(crate::transaction::insert_by_len(Seq::<crate::transaction::DeltaModel>::empty(), d) =~= seq![d]);
    assert(crate::transaction::sort_by_len(seq![d]) =~= seq![d]);
    assert(crate::transaction::delta_key(d) > crate::transaction::delta_key(root_d));
    assert(crate::transaction::insert_by_len(seq![d], root_d) =~= seq![root_d] + seq![d]);
    assert(ds =~= seq![root_d, d]);

    // the root write lands first in the empty pending data
    let pd0 = t1.pending_data@;
    let ph0 = t1.pending_heavy@;
    assert(ds[0] == root_d);
    assert(ds.drop_first() =~= seq![d]);
    assert(root_d.segs.drop_first() =~= Seq::<crate::paths::SegModel>::empty());
    let pd1 = ValModel::Dict(crate::value::dict_set(pd0->Dict_0, rootk, edited));
    assert(crate::value::set_path(pd0, root_d.segs, edited)
        == Ok::<ValModel, crate::errors::EngineError>(pd1));
    crate::value::lemma_dict_set_get(pd0->Dict_0, rootk, edited, rootk);

    // then the child write wins at the more specific path
    assert(d.segs[0] == crate::paths::SegModel::Key(rootk));
    assert(d.segs.drop_first() =~= seq![crate::paths::SegModel::Key(itemk)]);
    assert(seq![crate::paths::SegModel::Key(itemk)].drop_first() =~= Seq::<crate::paths::SegModel>::empty());
    let inner = ValModel::Dict(crate::value::dict_set(edited->Dict_0, itemk, ValModel::List(l1)));
    assert(crate::value::set_path(edited, seq![crate::paths::SegModel::Key(itemk)], ValModel::List(l1))
        == Ok::<ValModel, crate::errors::EngineError>(inner));
    let pd2 = ValModel::Dict(crate::value::dict_set(pd1->Dict_0, rootk, inner));
    assert(crate::value::set_path(pd1, d.segs, ValModel::List(l1))
        == Ok::<ValModel, crate::errors::EngineError>(pd2));
    assert(seq![d].drop_first() =~= Seq::<crate::transaction::DeltaModel>::empty());
    assert(crate::transaction::apply_deltas(pd2, ph0, Seq::<crate::transaction::DeltaModel>::empty())
        == Ok::<(ValModel, ValModel), crate::errors::EngineError>((pd2, ph0)));
    assert(crate::transaction::apply_deltas(pd1, ph0, seq![d])
        == Ok::<(ValModel, ValModel), crate::errors::EngineError>((pd2, ph0)));
    assert(crate::transaction::apply_deltas(pd0, ph0, ds)
        == Ok::<(ValModel, ValModel), crate::errors::EngineError>((pd2, ph0)));

    // the committed buffers bind the appended list under the child path
    crate::value::lemma_dict_set_get(pd1->Dict_0, rootk, inner, rootk);
    crate::value::lemma_dict_set_get(edited->Dict_0, itemk, ValModel::List(l1), itemk);
    let q = seq![crate::paths::SegModel::Key(rootk), crate::paths::SegModel::Key(itemk)];
    assert(q.drop_first() =~= seq![crate::paths::SegModel::Key(itemk)]);
    assert(crate::value::get_path(ValModel::List(l1), Seq::<crate::paths::SegModel>::empty())
        == Some(ValModel::List(l1)));
    assert(crate::value::get_path(inner, seq![crate::paths::SegModel::Key(itemk)])
        == Some(ValModel::List(l1)));
    assert(crate::value::get_path(pd2, q) == Some(ValModel::List(l1)));
}

} // verus!
