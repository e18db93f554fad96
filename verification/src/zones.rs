//! Zone taxonomy and capability physics.
//!
//! Every path belongs to a zone, decided by its segments: the first segment
//! (scanning left to right) that matches a selector wins. Each zone carries a
//! capability ceiling (its "physics"); the Constant zone is an absolute
//! ceiling that no actor, admin included, may widen.
use vstd::prelude::*;

verus! {

/// READ capability bit.
pub const CAP_READ: u8 = 1;

/// APPEND capability bit.
pub const CAP_APPEND: u8 = 2;

/// UPDATE capability bit.
pub const CAP_UPDATE: u8 = 4;

/// DELETE capability bit.
pub const CAP_DELETE: u8 = 8;

/// ADMIN capability bit: widens the mask to full, except at absolute ceilings.
pub const CAP_ADMIN: u8 = 16;

/// Empty capability mask: the path is completely hidden.
pub const CAP_NONE: u8 = 0;

/// Policy class of a path, decided by its segment selectors.
#[derive(Clone, Copy, Debug, PartialEq, Eq, Structural)]
pub enum ContextZone {
    Data,
    Signal,
    Meta,
    Heavy,
    Log,
    Constant,
    Private,
}

/// Capability ceiling of a zone, as a bitmask.
pub open spec fn spec_zone_physics(zone: ContextZone) -> u8 {
    match zone {
        ContextZone::Data => CAP_READ | CAP_APPEND | CAP_UPDATE | CAP_DELETE,
        ContextZone::Signal => CAP_READ | CAP_APPEND,
        ContextZone::Meta => CAP_READ | CAP_UPDATE,
        ContextZone::Heavy => CAP_READ | CAP_UPDATE,
        ContextZone::Log => CAP_READ | CAP_APPEND,
        ContextZone::Constant => CAP_READ,
        ContextZone::Private => CAP_NONE,
    }
}

/// Capability ceiling of a zone: READ|APPEND|UPDATE|DELETE for Data,
/// READ|APPEND for Signal and Log, READ|UPDATE for Meta and Heavy,
/// READ alone for Constant, and nothing for Private.
pub fn get_zone_physics(zone: &ContextZone) -> (caps: u8)
    ensures
        caps == spec_zone_physics(*zone),
{
    match zone {
        ContextZone::Data => CAP_READ | CAP_APPEND | CAP_UPDATE | CAP_DELETE,
        ContextZone::Signal => CAP_READ | CAP_APPEND,
        ContextZone::Meta => CAP_READ | CAP_UPDATE,
        ContextZone::Heavy => CAP_READ | CAP_UPDATE,
        ContextZone::Log => CAP_READ | CAP_APPEND,
        ContextZone::Constant => CAP_READ,
        ContextZone::Private => CAP_NONE,
    }
}

/// Whether the mask holds the capability bit.
pub open spec fn spec_has_cap(mask: u8, bit: u8) -> bool {
    mask & bit != 0
}

/// Whether the mask holds the capability bit.
pub fn has_cap(mask: u8, bit: u8) -> (r: bool)
    ensures
        r == spec_has_cap(mask, bit),
{
    mask & bit != 0
}

/// Zone a single key selects, if any: `const_*` is Constant, `internal_*`
/// Private, `sig_*`/`cmd_*`/`sig` Signal, `meta_*`/`meta` Meta,
/// `heavy_*`/`heavy` Heavy, `log_*`/`audit_*`/`log` Log; checked in that
/// order, first hit wins.
pub open spec fn spec_seg_zone(k: Seq<char>) -> Option<ContextZone> {
    if "const_"@.is_prefix_of(k) {
        Some(ContextZone::Constant)
    } else if "internal_"@.is_prefix_of(k) {
        Some(ContextZone::Private)
    } else if "sig_"@.is_prefix_of(k) || "cmd_"@.is_prefix_of(k) || k == "sig"@ {
        Some(ContextZone::Signal)
    } else if "meta_"@.is_prefix_of(k) || k == "meta"@ {
        Some(ContextZone::Meta)
    } else if "heavy_"@.is_prefix_of(k) || k == "heavy"@ {
        Some(ContextZone::Heavy)
    } else if "log_"@.is_prefix_of(k) || "audit_"@.is_prefix_of(k) || k == "log"@ {
        Some(ContextZone::Log)
    } else {
        None
    }
}

/// Zone of a path: the first key segment that matches a selector decides;
/// index segments never match; with no match the zone is Data.
pub open spec fn spec_zone_of(p: Seq<crate::paths::SegModel>) -> ContextZone
    decreases p.len(),
{
    if p.len() == 0 {
        ContextZone::Data
    } else {
        match p[0] {
            crate::paths::SegModel::Key(k) => match spec_seg_zone(k) {
                Some(z) => z,
                None => spec_zone_of(p.drop_first()),
            },
            crate::paths::SegModel::Index(_) => spec_zone_of(p.drop_first()),
        }
    }
}

/// Zone the key selects, if any.
fn seg_zone(k: &String) -> (r: Option<ContextZone>)
    ensures
        r == spec_seg_zone(k@),
{
    let kc = crate::paths::str_to_chars(k.as_str());
    if crate::paths::chars_has_prefix(&kc, &crate::paths::str_to_chars("const_")) {
        Some(ContextZone::Constant)
    } else if crate::paths::chars_has_prefix(&kc, &crate::paths::str_to_chars("internal_")) {
        Some(ContextZone::Private)
    } else if crate::paths::chars_has_prefix(&kc, &crate::paths::str_to_chars("sig_"))
        || crate::paths::chars_has_prefix(&kc, &crate::paths::str_to_chars("cmd_"))
        || crate::paths::chars_eq(&kc, &crate::paths::str_to_chars("sig")) {
        Some(ContextZone::Signal)
    } else if crate::paths::chars_has_prefix(&kc, &crate::paths::str_to_chars("meta_"))
        || crate::paths::chars_eq(&kc, &crate::paths::str_to_chars("meta")) {
        Some(ContextZone::Meta)
    } else if crate::paths::chars_has_prefix(&kc, &crate::paths::str_to_chars("heavy_"))
        || crate::paths::chars_eq(&kc, &crate::paths::str_to_chars("heavy")) {
        Some(ContextZone::Heavy)
    } else if crate::paths::chars_has_prefix(&kc, &crate::paths::str_to_chars("log_"))
        || crate::paths::chars_has_prefix(&kc, &crate::paths::str_to_chars("audit_"))
        || crate::paths::chars_eq(&kc, &crate::paths::str_to_chars("log")) {
        Some(ContextZone::Log)
    } else {
        None
    }
}

/// Zone of a parsed path.
pub fn resolve_zone_segs(p: &Vec<crate::paths::Seg>) -> (r: ContextZone)
    ensures
        r == spec_zone_of(crate::paths::path_model(p@)),
{
    let ghost whole = crate::paths::path_model(p@);
    proof {
        assert(whole.skip(0) =~= whole);
    }
    let mut i: usize = 0;
    while i < p.len()
        invariant
            i <= p@.len(),
            whole == crate::paths::path_model(p@),
            spec_zone_of(whole) == spec_zone_of(whole.skip(i as int)),
        decreases p@.len() - i,
    {
        let ghost rest = whole.skip(i as int);
        proof {
            assert(rest[0] == p@[i as int]@);
            assert(rest.drop_first() =~= whole.skip(i as int + 1));
        }
        match &p[i] {
            crate::paths::Seg::Key(k) => {
                if let Some(z) = seg_zone(k) {
                    return z;
                }
            },
            crate::paths::Seg::Index(_) => {},
        }
        i = i + 1;
    }
    proof {
        assert(whole.skip(p@.len() as int) =~= Seq::<crate::paths::SegModel>::empty());
    }
    ContextZone::Data
}

/// Zone of a path in string form: all its segments are inspected, and the
/// first selector hit wins.
pub fn resolve_zone(key: &str) -> (r: ContextZone)
    ensures
        r == spec_zone_of(crate::paths::spec_parse_path(key@)),
{
    let segs = crate::paths::parse_path_segments(key);
    resolve_zone_segs(&segs)
}

/// First-match lookup in the override entries.
pub open spec fn ovr_get(es: Seq<(Seq<char>, u8)>, k: Seq<char>) -> Option<u8>
    decreases es.len(),
{
    if es.len() == 0 {
        None
    } else if es[0].0 == k {
        Some(es[0].1)
    } else {
        ovr_get(es.drop_first(), k)
    }
}

/// Override entries after binding `k`: replace the first match, else append.
pub open spec fn ovr_set(es: Seq<(Seq<char>, u8)>, k: Seq<char>, caps: u8) -> Seq<(Seq<char>, u8)>
    decreases es.len(),
{
    if es.len() == 0 {
        seq![(k, caps)]
    } else if es[0].0 == k {
        seq![(k, caps)] + es.drop_first()
    } else {
        seq![es[0]] + ovr_set(es.drop_first(), k, caps)
    }
}

/// Binding an override then looking it up yields it; other keys are untouched.
pub proof fn lemma_ovr_set_get(es: Seq<(Seq<char>, u8)>, k: Seq<char>, caps: u8, k2: Seq<char>)
    ensures
        ovr_get(ovr_set(es, k, caps), k) == Some(caps),
        k2 != k ==> ovr_get(ovr_set(es, k, caps), k2) == ovr_get(es, k2),
    decreases es.len(),
{
    if es.len() == 0 {
        let r = ovr_set(es, k, caps);
        assert(r[0] == (k, caps));
        if k2 != k {
            assert(r.drop_first() =~= Seq::<(Seq<char>, u8)>::empty());
        }
    } else if es[0].0 == k {
        let r = ovr_set(es, k, caps);
        assert(r[0] == (k, caps));
        assert(r.drop_first() =~= es.drop_first());
    } else {
        let r = ovr_set(es, k, caps);
        assert(r[0] == es[0]);
        assert(r.drop_first() =~= ovr_set(es.drop_first(), k, caps));
        lemma_ovr_set_get(es.drop_first(), k, caps, k2);
    }
}

/// Dot-joined string form of a path: keys stand as written, indices in
/// decimal, segments separated by single dots.
pub open spec fn dotted(p: Seq<crate::paths::SegModel>) -> Seq<char>
    decreases p.len(),
{
    if p.len() == 0 {
        Seq::empty()
    } else if p.len() == 1 {
        seg_chars(p[0])
    } else {
        dotted(p.drop_last()) + seq!['.'] + seg_chars(p.last())
    }
}

/// Characters a segment contributes to the dot-joined form.
pub open spec fn seg_chars(s: crate::paths::SegModel) -> Seq<char> {
    match s {
        crate::paths::SegModel::Key(k) => k,
        crate::paths::SegModel::Index(i) => crate::paths::dec_seq(i),
    }
}

/// Dot-joined form of the first `len` segments.
pub fn dotted_string(segs: &Vec<crate::paths::Seg>, len: usize) -> (s: String)
    requires
        len <= segs@.len(),
    ensures
        s@ == dotted(crate::paths::path_model(segs@).take(len as int)),
{
    let ghost whole = crate::paths::path_model(segs@);
    let mut s = String::new();
    let mut i: usize = 0;
    while i < len
        invariant
            i <= len <= segs@.len(),
            whole == crate::paths::path_model(segs@),
            s@ == dotted(whole.take(i as int)),
        decreases len - i,
    {
        if i > 0 {
            s.append(".");
        }
        let piece: String = match &segs[i] {
            crate::paths::Seg::Key(k) => k.clone(),
            crate::paths::Seg::Index(ix) => crate::paths::usize_to_string(*ix),
        };
        s.append(piece.as_str());
        proof {
            reveal_strlit(".");
            assert(whole.take(i as int + 1).drop_last() =~= whole.take(i as int));
            assert(whole.take(i as int + 1).last() == segs@[i as int]@);
            if i > 0 {
                assert(s@ =~= dotted(whole.take(i as int)) + seq!['.'] + seg_chars(whole.take(i as int + 1).last()));
            } else {
                assert(s@ =~= seg_chars(whole.take(1).last()));
                assert(dotted(whole.take(1)) == seg_chars(whole.take(1)[0]));
            }
        }
        i = i + 1;
    }
    s
}

/// Process-wide table of per-path capability overrides.
pub struct OverrideTable {
    pub entries: Vec<(String, u8)>,
}

/// Model of the override table's entries.
pub open spec fn table_model(es: Seq<(String, u8)>) -> Seq<(Seq<char>, u8)> {
    Seq::new(es.len(), |i: int| if 0 <= i < es.len() { (es[i].0@, es[i].1) } else { (Seq::<char>::empty(), 0u8) })
}

impl OverrideTable {
    /// An empty table: no path is overridden.
    pub fn new() -> (r: OverrideTable)
        ensures
            table_model(r.entries@).len() == 0,
    {
        OverrideTable { entries: Vec::new() }
    }
}

/// Index of the first table entry for the key, if any.
fn table_find(es: &Vec<(String, u8)>, key: &String) -> (r: Option<usize>)
    ensures
        match r {
            Some(i) => i < es@.len() && es@[i as int].0@ == key@ && forall|j: int|
                0 <= j < i ==> es@[j].0@ != key@,
            None => forall|j: int| 0 <= j < es@.len() ==> es@[j].0@ != key@,
        },
{
    let mut i: usize = 0;
    while i < es.len()
        invariant
            i <= es@.len(),
            forall|j: int| 0 <= j < i ==> es@[j].0@ != key@,
        decreases es@.len() - i,
    {
        if es[i].0.eq(key) {
            return Some(i);
        }
        i = i + 1;
    }
    None
}

/// Record a capability override for the path, replacing any earlier one.
pub fn register_physics_override(table: &mut OverrideTable, path: String, caps: u8)
    ensures
        table_model(final(table).entries@) =~= ovr_set(table_model(old(table).entries@), path@, caps),
{
    let ghost t0 = table_model(table.entries@);
    match table_find(&table.entries, &path) {
        Some(i) => {
            proof {
                lemma_ovr_set_at(t0, path@, caps, i as int);
            }
            table.entries[i] = (path, caps);
            proof {
                assert(table_model(table.entries@) =~= t0.update(i as int, (path@, caps)));
            }
        },
        None => {
            proof {
                lemma_ovr_set_append(t0, path@, caps);
            }
            table.entries.push((path, caps));
            proof {
                assert(table_model(table.entries@) =~= t0.push((path@, caps)));
            }
        },
    }
}

/// When `i` is the first index bound to `k`, binding `k` updates index `i`.
pub proof fn lemma_ovr_set_at(es: Seq<(Seq<char>, u8)>, k: Seq<char>, caps: u8, i: int)
    requires
        0 <= i < es.len(),
        es[i].0 == k,
        forall|j: int| 0 <= j < i ==> es[j].0 != k,
    ensures
        ovr_set(es, k, caps) =~= es.update(i, (k, caps)),
    decreases i,
{
    if i > 0 {
        lemma_ovr_set_at(es.drop_first(), k, caps, i - 1);
    }
}

/// When no entry is bound to `k`, binding `k` appends a new entry.
pub proof fn lemma_ovr_set_append(es: Seq<(Seq<char>, u8)>, k: Seq<char>, caps: u8)
    requires
        forall|j: int| 0 <= j < es.len() ==> es[j].0 != k,
    ensures
        ovr_set(es, k, caps) =~= es.push((k, caps)),
    decreases es.len(),
{
    if es.len() > 0 {
        lemma_ovr_set_append(es.drop_first(), k, caps);
    }
}

/// When `i` is the first index bound to `k`, lookup returns that entry.
pub proof fn lemma_ovr_get_at(es: Seq<(Seq<char>, u8)>, k: Seq<char>, i: int)
    requires
        0 <= i < es.len(),
        es[i].0 == k,
        forall|j: int| 0 <= j < i ==> es[j].0 != k,
    ensures
        ovr_get(es, k) == Some(es[i].1),
    decreases i,
{
    if i > 0 {
        lemma_ovr_get_at(es.drop_first(), k, i - 1);
    }
}

/// When no entry is bound to `k`, lookup returns nothing.
pub proof fn lemma_ovr_get_none(es: Seq<(Seq<char>, u8)>, k: Seq<char>)
    requires
        forall|j: int| 0 <= j < es.len() ==> es[j].0 != k,
    ensures
        ovr_get(es, k) is None,
    decreases es.len(),
{
    if es.len() > 0 {
        lemma_ovr_get_none(es.drop_first(), k);
    }
}

/// Empty the override table.
pub fn clear_physics_overrides(table: &mut OverrideTable)
    ensures
        table_model(final(table).entries@).len() == 0,
{
    table.entries.clear();
}

/// Exact lookup of a string key in the table.
fn table_lookup(table: &OverrideTable, key: &String) -> (r: Option<u8>)
    ensures
        r == ovr_get(table_model(table.entries@), key@),
{
    match table_find(&table.entries, key) {
        Some(i) => {
            proof {
                lemma_ovr_get_at(table_model(table.entries@), key@, i as int);
            }
            Some(table.entries[i].1)
        },
        None => {
            proof {
                lemma_ovr_get_none(table_model(table.entries@), key@);
            }
            None
        },
    }
}

/// Longest-prefix override lookup over the dot-joined forms of a path's
/// prefixes, from the whole path down to its first segment.
pub open spec fn spec_prefix_override(tbl: Seq<(Seq<char>, u8)>, p: Seq<crate::paths::SegModel>) -> Option<u8>
    decreases p.len(),
{
    if p.len() == 0 {
        None
    } else {
        match ovr_get(tbl, dotted(p)) {
            Some(c) => Some(c),
            None => spec_prefix_override(tbl, p.drop_last()),
        }
    }
}

/// Effective override for a path: its exact string form first, then its
/// dot-joined prefixes, longest first.
pub open spec fn spec_get_override(tbl: Seq<(Seq<char>, u8)>, raw: Seq<char>) -> Option<u8> {
    match ovr_get(tbl, raw) {
        Some(c) => Some(c),
        None => spec_prefix_override(tbl, crate::paths::spec_parse_path(raw)),
    }
}

/// Override for the path, if any: an exact match on the path as written wins,
/// else the longest overridden dot-joined prefix.
pub fn get_physics_override(table: &OverrideTable, path: &str) -> (r: Option<u8>)
    ensures
        r == spec_get_override(table_model(table.entries@), path@),
{
    let owned: String = path.to_owned();
    if let Some(c) = table_lookup(table, &owned) {
        return Some(c);
    }
    let segs = crate::paths::parse_path_segments(path);
    let ghost whole = crate::paths::path_model(segs@);
    let mut len: usize = segs.len();
    proof {
        assert(whole.take(segs@.len() as int) =~= whole);
    }
    while len > 0
        invariant
            len <= segs@.len(),
            whole == crate::paths::path_model(segs@),
            whole == crate::paths::spec_parse_path(path@),
            ovr_get(table_model(table.entries@), path@) is None,
            spec_prefix_override(table_model(table.entries@), whole) == spec_prefix_override(table_model(table.entries@), whole.take(len as int)),
        decreases len,
    {
        let prefix = dotted_string(&segs, len);
        if let Some(c) = table_lookup(table, &prefix) {
            return Some(c);
        }
        proof {
            assert(whole.take(len as int).drop_last() =~= whole.take(len as int - 1));
        }
        len = len - 1;
    }
    proof {
        assert(whole.take(0).len() == 0);
    }
    None
}

/// Whether the zone's ceiling is unbreakable: no override and no admin
/// bypass may widen it.
pub open spec fn spec_absolute_ceiling(zone: ContextZone) -> bool {
    zone is Constant
}

/// Whether the zone's ceiling is unbreakable (true exactly for Constant).
pub fn is_absolute_ceiling(zone: &ContextZone) -> (r: bool)
    ensures
        r == spec_absolute_ceiling(*zone),
{
    match zone {
        ContextZone::Constant => true,
        _ => false,
    }
}

} // verus!
