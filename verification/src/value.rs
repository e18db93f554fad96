//! Dynamic values: the data model the engine stores and transactions edit.
//!
//! A [`Val`] is a scalar, a list, or a dict with string keys and insertion
//! order. Its mathematical model is [`ValModel`], reached through `@`; dict
//! entries are modelled as an association sequence, looked up by
//! [`dict_get`] with the first match winning.
use vstd::prelude::*;

verus! {

/// A dynamic value: scalar, list, or string-keyed map in insertion order.
#[derive(Debug)]
#[verifier::ext_equal]
pub enum Val {
    Null,
    Bool(bool),
    Int(i64),
    Str(String),
    List(Vec<Val>),
    Dict(Vec<(String, Val)>),
}

/// Mathematical model of a [`Val`].
#[verifier::ext_equal]
pub enum ValModel {
    Null,
    Bool(bool),
    Int(int),
    Str(Seq<char>),
    List(Seq<ValModel>),
    Dict(Seq<(Seq<char>, ValModel)>),
}

/// Model of a value: scalars map to their mathematical counterparts, lists
/// and dicts to sequences of the models of their members.
pub open spec fn val_model(v: &Val) -> ValModel
    decreases v,
{
    match v {
        Val::Null => ValModel::Null,
        Val::Bool(b) => ValModel::Bool(*b),
        Val::Int(i) => ValModel::Int(*i as int),
        Val::Str(s) => ValModel::Str(s@),
        Val::List(vs) => ValModel::List(
            Seq::new(vs@.len(), |i: int| if 0 <= i < vs@.len() { val_model(&vs@[i]) } else { ValModel::Null }),
        ),
        Val::Dict(es) => ValModel::Dict(
            Seq::new(es@.len(), |i: int| if 0 <= i < es@.len() { (es@[i].0@, val_model(&es@[i].1)) } else { (Seq::<char>::empty(), ValModel::Null) }),
        ),
    }
}

impl View for Val {
    type V = ValModel;

    open spec fn view(&self) -> ValModel {
        val_model(self)
    }
}

/// First-match lookup in an association sequence of dict entries.
pub open spec fn dict_get(es: Seq<(Seq<char>, ValModel)>, k: Seq<char>) -> Option<ValModel>
    decreases es.len(),
{
    if es.len() == 0 {
        None
    } else if es[0].0 == k {
        Some(es[0].1)
    } else {
        dict_get(es.drop_first(), k)
    }
}

/// Whether the entries hold the key.
pub open spec fn dict_has_key(es: Seq<(Seq<char>, ValModel)>, k: Seq<char>) -> bool {
    dict_get(es, k) is Some
}

/// Entries after binding `k` to `v`: the first entry for `k` is replaced in
/// place; a missing key is appended at the end.
pub open spec fn dict_set(es: Seq<(Seq<char>, ValModel)>, k: Seq<char>, v: ValModel) -> Seq<(Seq<char>, ValModel)>
    decreases es.len(),
{
    if es.len() == 0 {
        seq![(k, v)]
    } else if es[0].0 == k {
        seq![(k, v)] + es.drop_first()
    } else {
        seq![es[0]] + dict_set(es.drop_first(), k, v)
    }
}

/// When `i` is the first index bound to `k`, lookup returns that entry's value.
pub proof fn lemma_dict_get_at(es: Seq<(Seq<char>, ValModel)>, k: Seq<char>, i: int)
    requires
        0 <= i < es.len(),
        es[i].0 == k,
        forall|j: int| 0 <= j < i ==> es[j].0 != k,
    ensures
        dict_get(es, k) == Some(es[i].1),
    decreases i,
{
    if i > 0 {
        lemma_dict_get_at(es.drop_first(), k, i - 1);
    }
}

/// When no entry is bound to `k`, lookup returns nothing.
pub proof fn lemma_dict_get_none(es: Seq<(Seq<char>, ValModel)>, k: Seq<char>)
    requires
        forall|j: int| 0 <= j < es.len() ==> es[j].0 != k,
    ensures
        dict_get(es, k) is None,
    decreases es.len(),
{
    if es.len() > 0 {
        lemma_dict_get_none(es.drop_first(), k);
    }
}

/// When `i` is the first index bound to `k`, binding `k` updates index `i`.
pub proof fn lemma_dict_set_at(es: Seq<(Seq<char>, ValModel)>, k: Seq<char>, v: ValModel, i: int)
    requires
        0 <= i < es.len(),
        es[i].0 == k,
        forall|j: int| 0 <= j < i ==> es[j].0 != k,
    ensures
        dict_set(es, k, v) =~= es.update(i, (k, v)),
    decreases i,
{
    if i > 0 {
        lemma_dict_set_at(es.drop_first(), k, v, i - 1);
    }
}

/// When no entry is bound to `k`, binding `k` appends a new entry.
pub proof fn lemma_dict_set_append(es: Seq<(Seq<char>, ValModel)>, k: Seq<char>, v: ValModel)
    requires
        forall|j: int| 0 <= j < es.len() ==> es[j].0 != k,
    ensures
        dict_set(es, k, v) =~= es.push((k, v)),
    decreases es.len(),
{
    if es.len() > 0 {
        lemma_dict_set_append(es.drop_first(), k, v);
    }
}

/// Binding a key then looking it up yields the bound value; other keys are
/// untouched, and the set of keys only ever grows by `k`.
pub proof fn lemma_dict_set_get(es: Seq<(Seq<char>, ValModel)>, k: Seq<char>, v: ValModel, k2: Seq<char>)
    ensures
        dict_get(dict_set(es, k, v), k) == Some(v),
        k2 != k ==> dict_get(dict_set(es, k, v), k2) == dict_get(es, k2),
    decreases es.len(),
{
    if es.len() == 0 {
        let r = dict_set(es, k, v);
        assert(r[0] == (k, v));
        if k2 != k {
            assert(r.drop_first() =~= Seq::<(Seq<char>, ValModel)>::empty());
            assert(dict_get(r, k2) == dict_get(r.drop_first(), k2));
        }
    } else if es[0].0 == k {
        let r = dict_set(es, k, v);
        assert(r[0] == (k, v));
        assert(r.drop_first() =~= es.drop_first());
    } else {
        let r = dict_set(es, k, v);
        assert(r[0] == es[0]);
        assert(r.drop_first() =~= dict_set(es.drop_first(), k, v));
        lemma_dict_set_get(es.drop_first(), k, v, k2);
    }
}

impl Val {
    /// Structural deep copy: the copy has the same model as the original.
    pub fn deep_copy(&self) -> (r: Val)
        ensures
            r@ == self@,
        decreases *self,
    {
        match self {
            Val::Null => Val::Null,
            Val::Bool(b) => Val::Bool(*b),
            Val::Int(i) => Val::Int(*i),
            Val::Str(s) => Val::Str(s.clone()),
            Val::List(vs) => {
                let mut out: Vec<Val> = Vec::new();
                let mut i: usize = 0;
                while i < vs.len()
                    invariant
                        i <= vs.len(),
                        out@.len() == i as int,
                        forall|j: int| 0 <= j < i ==> out@[j]@ == vs@[j]@,
                        *self == Val::List(*vs),
                    decreases vs.len() - i,
                {
                    proof {
                        assert(decreases_to!(*self => self->List_0));
                        assert(decreases_to!(*vs => vs@));
                        assert(decreases_to!(vs@ => vs@[i as int]));
                    }
                    out.push(vs[i].deep_copy());
                    i = i + 1;
                }
                proof {
                    assert(Val::List(out)@->List_0 =~= self@->List_0);
                }
                Val::List(out)
            },
            Val::Dict(es) => {
                let mut out: Vec<(String, Val)> = Vec::new();
                let mut i: usize = 0;
                while i < es.len()
                    invariant
                        i <= es.len(),
                        out@.len() == i as int,
                        forall|j: int| 0 <= j < i ==> out@[j].0@ == es@[j].0@ && out@[j].1@ == es@[j].1@,
                        *self == Val::Dict(*es),
                    decreases es.len() - i,
                {
                    proof {
                        assert(decreases_to!(*self => self->Dict_0));
                        assert(decreases_to!(*es => es@));
                        assert(decreases_to!(es@ => es@[i as int]));
                        assert(decreases_to!(es@[i as int] => es@[i as int].1));
                    }
                    let k = es[i].0.clone();
                    let v = es[i].1.deep_copy();
                    out.push((k, v));
                    i = i + 1;
                }
                proof {
                    assert(Val::Dict(out)@->Dict_0 =~~= self@->Dict_0);
                }
                Val::Dict(out)
            },
        }
    }
    /// Structural equality test, deciding equality of the models.
    pub fn deep_eq(&self, other: &Val) -> (r: bool)
        ensures
            r == (self@ == other@),
        decreases *self,
    {
        match (self, other) {
            (Val::Null, Val::Null) => {
                proof {
                    assert(self@ == ValModel::Null);
                    assert(other@ == ValModel::Null);
                }
                return true;
            },
            (Val::Bool(a), Val::Bool(b)) => {
                proof {
                    assert(self@ == ValModel::Bool(*a));
                    assert(other@ == ValModel::Bool(*b));
                }
                return *a == *b;
            },
            (Val::Int(a), Val::Int(b)) => {
                proof {
                    assert(self@ == ValModel::Int(*a as int));
                    assert(other@ == ValModel::Int(*b as int));
                }
                return *a == *b;
            },
            (Val::Str(a), Val::Str(b)) => {
                proof {
                    assert(self@ == ValModel::Str(a@));
                    assert(other@ == ValModel::Str(b@));
                }
                return a.eq(b);
            },
            (Val::List(vs), Val::List(ws)) => {
                if vs.len() != ws.len() {
                    proof {
                        assert(self@->List_0.len() != other@->List_0.len());
                    }
                    return false;
                }
                {
                    let mut i: usize = 0;
                    let mut eq = true;
                    while i < vs.len()
                        invariant
                            i <= vs.len(),
                            vs@.len() == ws@.len(),
                            *self == Val::List(*vs),
                            *other == Val::List(*ws),
                            eq ==> forall|j: int| 0 <= j < i ==> vs@[j]@ == ws@[j]@,
                            !eq ==> self@ != other@,
                        decreases vs.len() - i,
                    {
                        proof {
                            assert(decreases_to!(*self => self->List_0));
                            assert(decreases_to!(*vs => vs@));
                            assert(decreases_to!(vs@ => vs@[i as int]));
                        }
                        if !vs[i].deep_eq(&ws[i]) {
                            proof {
                                assert(self@->List_0[i as int] != other@->List_0[i as int]);
                            }
                            eq = false;
                        }
                        i = i + 1;
                    }
                    proof {
                        if eq {
                            assert(self@->List_0 =~= other@->List_0);
                        }
                        assert(eq == (self@ == other@));
                    }
                    return eq;
                }
            },
            (Val::Dict(es), Val::Dict(fs)) => {
                if es.len() != fs.len() {
                    proof {
                        assert(self@->Dict_0.len() != other@->Dict_0.len());
                    }
                    return false;
                }
                {
                    let mut i: usize = 0;
                    let mut eq = true;
                    while i < es.len()
                        invariant
                            i <= es.len(),
                            es@.len() == fs@.len(),
                            *self == Val::Dict(*es),
                            *other == Val::Dict(*fs),
                            eq ==> forall|j: int| 0 <= j < i ==> es@[j].0@ == fs@[j].0@ && es@[j].1@ == fs@[j].1@,
                            !eq ==> self@ != other@,
                        decreases es.len() - i,
                    {
                        proof {
                            assert(decreases_to!(*self => self->Dict_0));
                            assert(decreases_to!(*es => es@));
                            assert(decreases_to!(es@ => es@[i as int]));
                            assert(decreases_to!(es@[i as int] => es@[i as int].1));
                        }
                        let keys_eq = es[i].0 == fs[i].0;
                        if !keys_eq || !es[i].1.deep_eq(&fs[i].1) {
                            proof {
                                assert(self@->Dict_0[i as int] != other@->Dict_0[i as int]);
                            }
                            eq = false;
                        }
                        i = i + 1;
                    }
                    proof {
                        if eq {
                            assert(self@->Dict_0 =~= other@->Dict_0);
                        }
                        assert(eq == (self@ == other@));
                    }
                    return eq;
                }
            },
            _ => {
                proof {
                    assert(self@ != other@);
                }
                return false;
            },
        }
    }
}

/// Model of a dict entry vector.
pub open spec fn entries_model(s: Seq<(String, Val)>) -> Seq<(Seq<char>, ValModel)> {
    Seq::new(s.len(), |i: int| if 0 <= i < s.len() { (s[i].0@, s[i].1@) } else { (Seq::<char>::empty(), ValModel::Null) })
}

/// Model of a list element vector.
pub open spec fn list_model(s: Seq<Val>) -> Seq<ValModel> {
    Seq::new(s.len(), |i: int| if 0 <= i < s.len() { s[i]@ } else { ValModel::Null })
}

/// A dict value's entries carry the dict's model.
pub broadcast proof fn lemma_dict_entries(v: Val)
    requires
        v is Dict,
    ensures
        (#[trigger] v@)->Dict_0 =~= entries_model(v->Dict_0@),
        v@ is Dict,
{
}

/// A list value's elements carry the list's model.
pub broadcast proof fn lemma_list_elems(v: Val)
    requires
        v is List,
    ensures
        (#[trigger] v@)->List_0 =~= list_model(v->List_0@),
        v@ is List,
{
}

/// Index of the first entry bound to the key, if any.
pub fn entries_find(es: &Vec<(String, Val)>, key: &String) -> (r: Option<usize>)
    ensures
        match r {
            Some(i) => i < es@.len() && es@[i as int].0@ == key@ && forall|j: int|
                0 <= j < i ==> es@[j].0@ != key@,
            None => forall|j: int| 0 <= j < es@.len() ==> es@[j].0@ != key@,
        },
{
    let mut i: usize = 0;
    while i < es.len()
        invariant
            i <= es@.len(),
            forall|j: int| 0 <= j < i ==> es@[j].0@ != key@,
        decreases es@.len() - i,
    {
        if es[i].0.eq(key) {
            return Some(i);
        }
        i = i + 1;
    }
    None
}

/// First-match lookup among dict entries.
pub fn entries_get<'a>(es: &'a Vec<(String, Val)>, key: &String) -> (r: Option<&'a Val>)
    ensures
        match r {
            Some(v) => dict_get(entries_model(es@), key@) == Some(v@),
            None => dict_get(entries_model(es@), key@) is None,
        },
{
    match entries_find(es, key) {
        Some(i) => {
            proof {
                lemma_dict_get_at(entries_model(es@), key@, i as int);
            }
            Some(&es[i].1)
        },
        None => {
            proof {
                lemma_dict_get_none(entries_model(es@), key@);
            }
            None
        },
    }
}

/// Bind the key among dict entries: replace the first match in place, or
/// append a new entry.
pub fn entries_set(es: &mut Vec<(String, Val)>, key: String, v: Val)
    ensures
        entries_model(final(es)@) =~= dict_set(entries_model(old(es)@), key@, v@),
{
    let ghost es0 = entries_model(es@);
    match entries_find(es, &key) {
        Some(i) => {
            proof {
                lemma_dict_set_at(es0, key@, v@, i as int);
            }
            es[i] = (key, v);
            proof {
                assert(entries_model(es@) =~= es0.update(i as int, (key@, v@)));
            }
        },
        None => {
            proof {
                lemma_dict_set_append(es0, key@, v@);
            }
            es.push((key, v));
            proof {
                assert(entries_model(es@) =~= es0.push((key@, v@)));
            }
        },
    }
}

/// A list after writing index `i`: in range the element is replaced; past the
/// end the list is padded with nulls up to `i` and the value stands at `i`.
pub open spec fn spec_list_set_extend(s: Seq<ValModel>, i: int, v: ValModel) -> Seq<ValModel> {
    let n = if i < s.len() {
        s.len() as int
    } else {
        i + 1
    };
    Seq::new(n as nat, |j: int| if j == i { v } else if 0 <= j < s.len() { s[j] } else { ValModel::Null })
}

/// Write index `i`, padding with nulls when the list is too short.
pub fn list_set_extend(vs: &mut Vec<Val>, i: usize, x: Val)
    ensures
        list_model(final(vs)@) =~= spec_list_set_extend(list_model(old(vs)@), i as int, x@),
{
    let ghost s0 = list_model(vs@);
    if i < vs.len() {
        vs[i] = x;
        proof {
            assert(list_model(vs@) =~= spec_list_set_extend(s0, i as int, x@));
        }
    } else {
        while vs.len() < i
            invariant
                s0.len() <= vs@.len() <= i,
                s0 == list_model(vs@).take(s0.len() as int),
                forall|j: int| s0.len() <= j < vs@.len() ==> vs@[j]@ == ValModel::Null,
            decreases i - vs@.len(),
        {
            let ghost pre = vs@;
            vs.push(Val::Null);
            proof {
                assert(list_model(vs@).take(s0.len() as int) =~= list_model(pre).take(s0.len() as int));
            }
        }
        vs.push(x);
        proof {
            assert(list_model(vs@) =~= spec_list_set_extend(s0, i as int, x@));
        }
    }
}

/// Value reached by walking the path: keys step through dicts, indices step
/// through lists; any mismatch yields nothing.
pub open spec fn get_path(m: ValModel, p: Seq<crate::paths::SegModel>) -> Option<ValModel>
    decreases p.len(),
{
    if p.len() == 0 {
        Some(m)
    } else {
        match p[0] {
            crate::paths::SegModel::Key(k) => {
                if m is Dict {
                    match dict_get(m->Dict_0, k) {
                        Some(c) => get_path(c, p.drop_first()),
                        None => None,
                    }
                } else {
                    None
                }
            },
            crate::paths::SegModel::Index(i) => {
                if m is List && 0 <= i < m->List_0.len() {
                    get_path(m->List_0[i], p.drop_first())
                } else {
                    None
                }
            },
        }
    }
}

/// Value after writing `x` at the path. Keys step through dicts, creating
/// empty dicts for missing intermediate keys; indices step through lists and
/// extend them with nulls at the last step. An index applied last to a dict
/// binds the decimal form of the index as key. An empty path changes nothing.
/// A key step on a non-dict and an index step on anything else fail with
/// `TypeError`; an out-of-range index before the last step fails with
/// `IndexError`.
pub open spec fn set_path(m: ValModel, p: Seq<crate::paths::SegModel>, x: ValModel) -> Result<ValModel, crate::errors::EngineError>
    decreases p.len(),
{
    if p.len() == 0 {
        Ok(m)
    } else {
        let last = p.len() == 1;
        match p[0] {
            crate::paths::SegModel::Key(k) => {
                if m is Dict {
                    if last {
                        Ok(ValModel::Dict(dict_set(m->Dict_0, k, x)))
                    } else {
                        let child = match dict_get(m->Dict_0, k) {
                            Some(c) => c,
                            None => ValModel::Dict(Seq::empty()),
                        };
                        match set_path(child, p.drop_first(), x) {
                            Ok(c2) => Ok(ValModel::Dict(dict_set(m->Dict_0, k, c2))),
                            Err(e) => Err(e),
                        }
                    }
                } else {
                    Err(crate::errors::EngineError::TypeError)
                }
            },
            crate::paths::SegModel::Index(i) => {
                if m is List {
                    if last {
                        Ok(ValModel::List(spec_list_set_extend(m->List_0, i, x)))
                    } else if 0 <= i < m->List_0.len() {
                        match set_path(m->List_0[i], p.drop_first(), x) {
                            Ok(c2) => Ok(ValModel::List(m->List_0.update(i, c2))),
                            Err(e) => Err(e),
                        }
                    } else {
                        Err(crate::errors::EngineError::IndexError)
                    }
                } else if m is Dict && last {
                    Ok(ValModel::Dict(dict_set(m->Dict_0, crate::paths::dec_seq(i), x)))
                } else {
                    Err(crate::errors::EngineError::TypeError)
                }
            },
        }
    }
}

fn set_at_path_rec(v: &Val, p: &Vec<crate::paths::Seg>, from: usize, x: Val) -> (r: Result<Val, crate::errors::EngineError>)
    requires
        from <= p@.len(),
    ensures
        match r {
            Ok(nv) => set_path(v@, crate::paths::path_model(p@).skip(from as int), x@) == Ok::<ValModel, crate::errors::EngineError>(nv@),
            Err(e) => set_path(v@, crate::paths::path_model(p@).skip(from as int), x@) == Err::<ValModel, crate::errors::EngineError>(e),
        },
    decreases p@.len() - from,
{
    let ghost rest = crate::paths::path_model(p@).skip(from as int);
    if from == p.len() {
        proof {
            assert(rest.len() == 0);
        }
        return Ok(v.deep_copy());
    }
    proof {
        assert(rest[0] == p@[from as int]@);
        assert(rest.drop_first() =~= crate::paths::path_model(p@).skip(from as int + 1));
    }
    let last = from + 1 == p.len();
    match &p[from] {
        crate::paths::Seg::Key(k) => match v {
            Val::Dict(es) => {
                proof {
                    lemma_dict_entries(*v);
                }
                if last {
                    let copy = v.deep_copy();
                    let mut ces = match copy {
                        Val::Dict(c) => c,
                        _ => Vec::new(),
                    };
                    proof {
                        assert(entries_model(ces@) =~= v@->Dict_0);
                    }
                    entries_set(&mut ces, k.clone(), x);
                    let out = Val::Dict(ces);
                    proof {
                        lemma_dict_entries(out);
                        assert(out@ =~~= ValModel::Dict(dict_set(v@->Dict_0, k@, x@)));
                    }
                    Ok(out)
                } else {
                    let child_new: Result<Val, crate::errors::EngineError> = match entries_get(es, k) {
                        Some(c) => set_at_path_rec(c, p, from + 1, x),
                        None => {
                            let empty = Val::Dict(Vec::new());
                            proof {
                                lemma_dict_entries(empty);
                                assert(empty@ is Dict);
                                assert(empty@->Dict_0.len() == 0);
                                assert(empty@->Dict_0 =~= Seq::<(Seq<char>, ValModel)>::empty());
                                assert(empty@ =~~= ValModel::Dict(Seq::<(Seq<char>, ValModel)>::empty()));
                            }
                            set_at_path_rec(&empty, p, from + 1, x)
                        },
                    };
                    match child_new {
                        Ok(c2) => {
                            let copy = v.deep_copy();
                            let mut ces = match copy {
                                Val::Dict(c) => c,
                                _ => Vec::new(),
                            };
                            proof {
                                assert(entries_model(ces@) =~= v@->Dict_0);
                            }
                            entries_set(&mut ces, k.clone(), c2);
                            let out = Val::Dict(ces);
                            proof {
                                lemma_dict_entries(out);
                                assert(out@ =~~= ValModel::Dict(dict_set(v@->Dict_0, k@, c2@)));
                            }
                            Ok(out)
                        },
                        Err(e) => Err(e),
                    }
                }
            },
            _ => Err(crate::errors::EngineError::TypeError),
        },
        crate::paths::Seg::Index(i) => match v {
            Val::List(vs) => {
                proof {
                    lemma_list_elems(*v);
                }
                if last {
                    let copy = v.deep_copy();
                    let mut cvs = match copy {
                        Val::List(c) => c,
                        _ => Vec::new(),
                    };
                    proof {
                        assert(list_model(cvs@) =~= v@->List_0);
                    }
                    list_set_extend(&mut cvs, *i, x);
                    let out = Val::List(cvs);
                    proof {
                        lemma_list_elems(out);
                        assert(out@ =~~= ValModel::List(spec_list_set_extend(v@->List_0, *i as int, x@)));
                    }
                    Ok(out)
                } else if *i < vs.len() {
                    match set_at_path_rec(&vs[*i], p, from + 1, x) {
                        Ok(c2) => {
                            let copy = v.deep_copy();
                            let mut cvs = match copy {
                                Val::List(c) => c,
                                _ => Vec::new(),
                            };
                            proof {
                                assert(list_model(cvs@) =~= v@->List_0);
                            }
                            let idx = *i;
                            cvs[idx] = c2;
                            let out = Val::List(cvs);
                            proof {
                                lemma_list_elems(out);
                                assert(out@->List_0 =~= v@->List_0.update(idx as int, set_path(v@->List_0[idx as int], rest.drop_first(), x@)->Ok_0));
                            }
                            Ok(out)
                        },
                        Err(e) => Err(e),
                    }
                } else {
                    Err(crate::errors::EngineError::IndexError)
                }
            },
            Val::Dict(es) => {
                if last {
                    proof {
                        lemma_dict_entries(*v);
                    }
                    let copy = v.deep_copy();
                    let mut ces = match copy {
                        Val::Dict(c) => c,
                        _ => Vec::new(),
                    };
                    proof {
                        assert(entries_model(ces@) =~= v@->Dict_0);
                    }
                    let key = crate::paths::usize_to_string(*i);
                    entries_set(&mut ces, key, x);
                    let out = Val::Dict(ces);
                    proof {
                        lemma_dict_entries(out);
                        assert(out@ =~~= ValModel::Dict(dict_set(v@->Dict_0, crate::paths::dec_seq(*i as int), x@)));
                    }
                    Ok(out)
                } else {
                    Err(crate::errors::EngineError::TypeError)
                }
            },
            _ => Err(crate::errors::EngineError::TypeError),
        },
    }
}

/// Write `x` into the tree at the path, creating intermediate dicts and
/// padding lists as the path asks; on failure the tree is unchanged.
pub fn set_nested_value(root: &mut Val, path: &Vec<crate::paths::Seg>, x: Val) -> (r: Result<(), crate::errors::EngineError>)
    ensures
        match r {
            Ok(()) => set_path(old(root)@, crate::paths::path_model(path@), x@) matches Ok(nv) && final(root)@ == nv,
            Err(e) => set_path(old(root)@, crate::paths::path_model(path@), x@) == Err::<ValModel, crate::errors::EngineError>(e)
                && final(root)@ == old(root)@,
        },
{
    proof {
        assert(crate::paths::path_model(path@).skip(0) =~= crate::paths::path_model(path@));
    }
    match set_at_path_rec(root, path, 0, x) {
        Ok(nv) => {
            *root = nv;
            Ok(())
        },
        Err(e) => Err(e),
    }
}

/// Deep merge: dicts merge entry by entry (nested dicts recursively, other
/// values overwrite), anything else is overwritten by the update.
pub open spec fn merge_model(t: ValModel, u: ValModel) -> ValModel
    decreases u,
{
    if t is Dict && u is Dict {
        ValModel::Dict(merge_entries(t->Dict_0, u->Dict_0))
    } else {
        u
    }
}

/// Fold the update entries left to right into the target entries: an update
/// whose value and current target value are both dicts merges them, any other
/// update binds its value directly.
pub open spec fn merge_entries(ts: Seq<(Seq<char>, ValModel)>, us: Seq<(Seq<char>, ValModel)>) -> Seq<(Seq<char>, ValModel)>
    decreases us,
{
    if us.len() == 0 {
        ts
    } else {
        let k = us[0].0;
        let v = us[0].1;
        let merged = match dict_get(ts, k) {
            Some(old) => if old is Dict && v is Dict {
                merge_model(old, v)
            } else {
                v
            },
            None => v,
        };
        merge_entries(dict_set(ts, k, merged), us.drop_first())
    }
}

/// In-place deep update of a dict by a dict of updates; keys containing a
/// dot are expanded as paths. Anything other than two dicts is a usage error.
pub open spec fn upd_model(t: ValModel, u: ValModel) -> Result<ValModel, crate::errors::EngineError>
    decreases u, 1int,
{
    if t is Dict && u is Dict {
        match upd_entries(t->Dict_0, u->Dict_0) {
            Ok(es) => Ok(ValModel::Dict(es)),
            Err(e) => Err(e),
        }
    } else {
        Err(crate::errors::EngineError::Context)
    }
}

/// Fold update entries left to right: a key with a dot is applied as a path
/// (merging dicts at the leaf), a dict value over an existing dict value
/// recurses, anything else binds directly.
pub open spec fn upd_entries(ts: Seq<(Seq<char>, ValModel)>, us: Seq<(Seq<char>, ValModel)>) -> Result<Seq<(Seq<char>, ValModel)>, crate::errors::EngineError>
    decreases us, 0int,
{
    if us.len() == 0 {
        Ok(ts)
    } else {
        let k = us[0].0;
        let v = us[0].1;
        let stepped: Result<Seq<(Seq<char>, ValModel)>, crate::errors::EngineError> = if k.contains('.') {
            match upd_at_path(ValModel::Dict(ts), crate::paths::spec_parse_path(k), v) {
                Ok(m2) => Ok(m2->Dict_0),
                Err(e) => Err(e),
            }
        } else {
            match dict_get(ts, k) {
                Some(old) => if old is Dict && v is Dict {
                    match upd_entries(old->Dict_0, v->Dict_0) {
                        Ok(es) => Ok(dict_set(ts, k, ValModel::Dict(es))),
                        Err(e) => Err(e),
                    }
                } else {
                    Ok(dict_set(ts, k, v))
                },
                None => Ok(dict_set(ts, k, v)),
            }
        };
        match stepped {
            Ok(ts2) => upd_entries(ts2, us.drop_first()),
            Err(e) => Err(e),
        }
    }
}

/// Write `v` at the path inside `m`, deep-updating when both the existing
/// leaf and `v` are dicts, else overwriting; intermediate dicts are created,
/// lists are padded at the last step and never merged.
pub open spec fn upd_at_path(m: ValModel, p: Seq<crate::paths::SegModel>, v: ValModel) -> Result<ValModel, crate::errors::EngineError>
    decreases v, p.len(), 2int,
{
    if p.len() == 0 {
        Ok(m)
    } else {
        let last = p.len() == 1;
        match p[0] {
            crate::paths::SegModel::Key(k) => {
                if m is Dict {
                    if last {
                        match dict_get(m->Dict_0, k) {
                            Some(old) => if old is Dict && v is Dict {
                                match upd_entries(old->Dict_0, v->Dict_0) {
                                    Ok(es) => Ok(ValModel::Dict(dict_set(m->Dict_0, k, ValModel::Dict(es)))),
                                    Err(e) => Err(e),
                                }
                            } else {
                                Ok(ValModel::Dict(dict_set(m->Dict_0, k, v)))
                            },
                            None => Ok(ValModel::Dict(dict_set(m->Dict_0, k, v))),
                        }
                    } else {
                        let child = match dict_get(m->Dict_0, k) {
                            Some(c) => c,
                            None => ValModel::Dict(Seq::empty()),
                        };
                        match upd_at_path(child, p.drop_first(), v) {
                            Ok(c2) => Ok(ValModel::Dict(dict_set(m->Dict_0, k, c2))),
                            Err(e) => Err(e),
                        }
                    }
                } else {
                    Err(crate::errors::EngineError::TypeError)
                }
            },
            crate::paths::SegModel::Index(i) => {
                if m is List {
                    if last {
                        Ok(ValModel::List(spec_list_set_extend(m->List_0, i, v)))
                    } else if 0 <= i < m->List_0.len() {
                        match upd_at_path(m->List_0[i], p.drop_first(), v) {
                            Ok(c2) => Ok(ValModel::List(m->List_0.update(i, c2))),
                            Err(e) => Err(e),
                        }
                    } else {
                        Err(crate::errors::EngineError::IndexError)
                    }
                } else {
                    Err(crate::errors::EngineError::TypeError)
                }
            },
        }
    }
}

impl Val {
    /// Whether the value is a dict.
    pub fn is_dict(&self) -> (r: bool)
        ensures
            r == (self@ is Dict),
            r == (*self is Dict),
    {
        match self {
            Val::Dict(_) => true,
            _ => false,
        }
    }

    /// Whether the value is an integer.
    pub fn is_int(&self) -> (r: bool)
        ensures
            r == (self@ is Int),
            r == (*self is Int),
    {
        match self {
            Val::Int(_) => true,
            _ => false,
        }
    }

    /// Whether the value is a list.
    pub fn is_list(&self) -> (r: bool)
        ensures
            r == (self@ is List),
            r == (*self is List),
    {
        match self {
            Val::List(_) => true,
            _ => false,
        }
    }
}

/// Whether the string holds the character.
pub fn str_contains_char(s: &String, c: char) -> (r: bool)
    ensures
        r == s@.contains(c),
{
    let cs = crate::paths::str_to_chars(s.as_str());
    let mut i: usize = 0;
    while i < cs.len()
        invariant
            i <= cs@.len(),
            cs@ == s@,
            forall|j: int| 0 <= j < i ==> cs@[j] != c,
        decreases cs@.len() - i,
    {
        if cs[i] == c {
            proof {
                assert(s@[i as int] == c);
            }
            return true;
        }
        i = i + 1;
    }
    proof {
        assert(!s@.contains(c));
    }
    false
}

/// Copy-on-write deep merge: the result is the target with the updates
/// folded in; neither argument is changed.
pub fn deep_merge_cow(target: &Val, updates: &Val) -> (r: Val)
    ensures
        r@ == merge_model(target@, updates@),
    decreases *updates,
{
    let target_dict = target.is_dict();
    let updates_dict = updates.is_dict();
    if !(target_dict && updates_dict) {
        return updates.deep_copy();
    }
    match (target, updates) {
        (Val::Dict(ts), Val::Dict(us)) => {
            proof {
                lemma_dict_entries(*target);
                lemma_dict_entries(*updates);
            }
            let copy = target.deep_copy();
            let mut out = match copy {
                Val::Dict(c) => c,
                _ => Vec::new(),
            };
            let ghost t0 = target@->Dict_0;
            let ghost u0 = updates@->Dict_0;
            proof {
                assert(entries_model(out@) =~= t0);
                assert(u0.skip(0) =~= u0);
            }
            let mut i: usize = 0;
            while i < us.len()
                invariant
                    i <= us@.len(),
                    *updates == Val::Dict(*us),
                    u0 == entries_model(us@),
                    merge_entries(t0, u0) == merge_entries(entries_model(out@), u0.skip(i as int)),
                decreases us@.len() - i,
            {
                let ghost cur = entries_model(out@);
                let ghost restu = u0.skip(i as int);
                proof {
                    assert(restu[0] == (us@[i as int].0@, us@[i as int].1@));
                    assert(restu.drop_first() =~= u0.skip(i as int + 1));
                    assert(decreases_to!(*updates => updates->Dict_0));
                    assert(decreases_to!(*us => us@));
                    assert(decreases_to!(us@ => us@[i as int]));
                    assert(decreases_to!(us@[i as int] => us@[i as int].1));
                }
                let k = &us[i].0;
                let v = &us[i].1;
                let merged: Val = match entries_get(&out, k) {
                    Some(old) => {
                        if old.is_dict() && v.is_dict() {
                            deep_merge_cow(old, v)
                        } else {
                            v.deep_copy()
                        }
                    },
                    None => v.deep_copy(),
                };
                proof {
                    assert(merge_entries(cur, restu) == merge_entries(dict_set(cur, k@, merged@), restu.drop_first()));
                }
                entries_set(&mut out, k.clone(), merged);
                i = i + 1;
            }
            proof {
                assert(u0.skip(us@.len() as int) =~= Seq::<(Seq<char>, ValModel)>::empty());
            }
            let r = Val::Dict(out);
            proof {
                lemma_dict_entries(r);
                assert(r@ =~~= ValModel::Dict(merge_entries(t0, u0)));
            }
            r
        },
        _ => {
            proof {
                assert(false);
            }
            Val::Null
        },
    }
}

/// Entry-by-entry deep copy of dict entries.
pub fn entries_copy(es: &Vec<(String, Val)>) -> (r: Vec<(String, Val)>)
    ensures
        entries_model(r@) =~= entries_model(es@),
{
    let mut out: Vec<(String, Val)> = Vec::new();
    let mut i: usize = 0;
    while i < es.len()
        invariant
            i <= es@.len(),
            out@.len() == i as int,
            forall|j: int| 0 <= j < i ==> out@[j].0@ == es@[j].0@ && out@[j].1@ == es@[j].1@,
        decreases es@.len() - i,
    {
        let k = es[i].0.clone();
        let v = es[i].1.deep_copy();
        out.push((k, v));
        i = i + 1;
    }
    out
}

fn upd_entries_exec(ts: &Vec<(String, Val)>, us: &Vec<(String, Val)>) -> (r: Result<Vec<(String, Val)>, crate::errors::EngineError>)
    ensures
        match r {
            Ok(out) => upd_entries(entries_model(ts@), entries_model(us@)) == Ok::<_, crate::errors::EngineError>(entries_model(out@)),
            Err(e) => upd_entries(entries_model(ts@), entries_model(us@)) == Err::<Seq<(Seq<char>, ValModel)>, _>(e),
        },
    decreases *us, 0int,
{
    let ghost t0 = entries_model(ts@);
    let ghost u0 = entries_model(us@);
    let mut out = entries_copy(ts);
    proof {
        assert(u0.skip(0) =~= u0);
        assert(entries_model(out@) =~= t0);
    }
    let mut i: usize = 0;
    while i < us.len()
        invariant
            i <= us@.len(),
            t0 == entries_model(ts@),
            u0 == entries_model(us@),
            upd_entries(t0, u0) == upd_entries(entries_model(out@), u0.skip(i as int)),
        decreases us@.len() - i,
    {
        let ghost cur = entries_model(out@);
        let ghost restu = u0.skip(i as int);
        proof {
            assert(upd_entries(t0, u0) == upd_entries(cur, restu));
            assert(restu[0] == (us@[i as int].0@, us@[i as int].1@));
            assert(restu.drop_first() =~= u0.skip(i as int + 1));
            assert(decreases_to!(*us => us@));
            assert(decreases_to!(us@ => us@[i as int]));
            assert(decreases_to!(us@[i as int] => us@[i as int].1));
        }
        let k = &us[i].0;
        let v = &us[i].1;
        if str_contains_char(k, '.') {
            let segs = crate::paths::parse_path_segments(k.as_str());
            let d = Val::Dict(out);
            proof {
                lemma_dict_entries(d);
                assert(d@ =~~= ValModel::Dict(cur));
                assert(crate::paths::path_model(segs@).skip(0) =~= crate::paths::path_model(segs@));
            }
            match upd_at_path_rec(&d, &segs, 0, v) {
                Ok(nv) => {
                    proof {
                        assert(nv@ is Dict);
                        assert(nv is Dict);
                    }
                    out = match nv {
                        Val::Dict(c) => c,
                        _ => Vec::new(),
                    };
                    proof {
                        lemma_dict_entries(nv);
                    }
                },
                Err(e) => {
                    proof {
                        assert(upd_entries(cur, restu) == Err::<Seq<(Seq<char>, ValModel)>, crate::errors::EngineError>(e));
                        assert(upd_entries(t0, u0) == upd_entries(cur, restu));
                        assert(upd_entries(entries_model(ts@), entries_model(us@)) == Err::<Seq<(Seq<char>, ValModel)>, crate::errors::EngineError>(e));
                    }
                    return Err(e);
                },
            }
        } else {
            let merged: Result<Val, crate::errors::EngineError> = match entries_get(&out, k) {
                Some(old) => {
                    if old.is_dict() && v.is_dict() {
                        let ocopy = old.deep_copy();
                        let oes = match ocopy {
                            Val::Dict(c) => c,
                            _ => Vec::new(),
                        };
                        proof {
                            lemma_dict_entries(*old);
                            assert(entries_model(oes@) =~= old@->Dict_0);
                        }
                        let ves = match v {
                            Val::Dict(c) => c,
                            _ => {
                                proof {
                                    assert(false);
                                }
                                us
                            },
                        };
                        proof {
                            lemma_dict_entries(*v);
                            assert(entries_model(ves@) =~= v@->Dict_0);
                        }
                        match upd_entries_exec(&oes, ves) {
                            Ok(m) => {
                                let md = Val::Dict(m);
                                proof {
                                    lemma_dict_entries(md);
                                    assert(md@ =~~= ValModel::Dict(upd_entries(old@->Dict_0, v@->Dict_0)->Ok_0));
                                }
                                Ok(md)
                            },
                            Err(e) => Err(e),
                        }
                    } else {
                        Ok(v.deep_copy())
                    }
                },
                None => Ok(v.deep_copy()),
            };
            match merged {
                Ok(mv) => {
                    proof {
                        assert(upd_entries(cur, restu) == upd_entries(dict_set(cur, k@, mv@), restu.drop_first()));
                    }
                    entries_set(&mut out, k.clone(), mv);
                },
                Err(e) => {
                    proof {
                        assert(upd_entries(cur, restu) == Err::<Seq<(Seq<char>, ValModel)>, crate::errors::EngineError>(e));
                    }
                    return Err(e);
                },
            }
        }
        i = i + 1;
    }
    proof {
        assert(u0.skip(us@.len() as int) =~= Seq::<(Seq<char>, ValModel)>::empty());
    }
    Ok(out)
}

fn upd_at_path_rec(v: &Val, p: &Vec<crate::paths::Seg>, from: usize, x: &Val) -> (r: Result<Val, crate::errors::EngineError>)
    requires
        from <= p@.len(),
    ensures
        match r {
            Ok(nv) => upd_at_path(v@, crate::paths::path_model(p@).skip(from as int), x@) == Ok::<ValModel, crate::errors::EngineError>(nv@),
            Err(e) => upd_at_path(v@, crate::paths::path_model(p@).skip(from as int), x@) == Err::<ValModel, crate::errors::EngineError>(e),
        },
    decreases *x, p@.len() - from, 2int,
{
    let ghost rest = crate::paths::path_model(p@).skip(from as int);
    if from == p.len() {
        proof {
            assert(rest.len() == 0);
        }
        return Ok(v.deep_copy());
    }
    proof {
        assert(rest[0] == p@[from as int]@);
        assert(rest.drop_first() =~= crate::paths::path_model(p@).skip(from as int + 1));
    }
    let last = from + 1 == p.len();
    match &p[from] {
        crate::paths::Seg::Key(k) => match v {
            Val::Dict(es) => {
                proof {
                    lemma_dict_entries(*v);
                }
                if last {
                    let merged: Result<Val, crate::errors::EngineError> = match entries_get(es, k) {
                        Some(old) => {
                            if old.is_dict() && x.is_dict() {
                                let ocopy = old.deep_copy();
                                let oes = match ocopy {
                                    Val::Dict(c) => c,
                                    _ => Vec::new(),
                                };
                                proof {
                                    lemma_dict_entries(*old);
                                    assert(entries_model(oes@) =~= old@->Dict_0);
                                    assert(decreases_to!(*x => x->Dict_0));
                                }
                                let xes = match x {
                                    Val::Dict(c) => c,
                                    _ => {
                                        proof {
                                            assert(false);
                                        }
                                        es
                                    },
                                };
                                proof {
                                    lemma_dict_entries(*x);
                                    assert(entries_model(xes@) =~= x@->Dict_0);
                                }
                                match upd_entries_exec(&oes, xes) {
                                    Ok(m) => {
                                        let md = Val::Dict(m);
                                        proof {
                                            lemma_dict_entries(md);
                                            assert(md@ =~~= ValModel::Dict(upd_entries(old@->Dict_0, x@->Dict_0)->Ok_0));
                                        }
                                        Ok(md)
                                    },
                                    Err(e) => Err(e),
                                }
                            } else {
                                Ok(x.deep_copy())
                            }
                        },
                        None => Ok(x.deep_copy()),
                    };
                    match merged {
                        Ok(mv) => {
                            let copy = v.deep_copy();
                            let mut ces = match copy {
                                Val::Dict(c) => c,
                                _ => Vec::new(),
                            };
                            proof {
                                assert(entries_model(ces@) =~= v@->Dict_0);
                            }
                            entries_set(&mut ces, k.clone(), mv);
                            let out = Val::Dict(ces);
                            proof {
                                lemma_dict_entries(out);
                                assert(out@ =~~= upd_at_path(v@, rest, x@)->Ok_0);
                            }
                            Ok(out)
                        },
                        Err(e) => Err(e),
                    }
                } else {
                    let child_new: Result<Val, crate::errors::EngineError> = match entries_get(es, k) {
                        Some(c) => upd_at_path_rec(c, p, from + 1, x),
                        None => {
                            let empty = Val::Dict(Vec::new());
                            proof {
                                lemma_dict_entries(empty);
                                assert(empty@->Dict_0.len() == 0);
                                assert(empty@->Dict_0 =~= Seq::<(Seq<char>, ValModel)>::empty());
                                assert(empty@ =~~= ValModel::Dict(Seq::<(Seq<char>, ValModel)>::empty()));
                            }
                            upd_at_path_rec(&empty, p, from + 1, x)
                        },
                    };
                    match child_new {
                        Ok(c2) => {
                            let copy = v.deep_copy();
                            let mut ces = match copy {
                                Val::Dict(c) => c,
                                _ => Vec::new(),
                            };
                            proof {
                                assert(entries_model(ces@) =~= v@->Dict_0);
                            }
                            entries_set(&mut ces, k.clone(), c2);
                            let out = Val::Dict(ces);
                            proof {
                                lemma_dict_entries(out);
                                assert(out@ =~~= ValModel::Dict(dict_set(v@->Dict_0, k@, c2@)));
                            }
                            Ok(out)
                        },
                        Err(e) => Err(e),
                    }
                }
            },
            _ => Err(crate::errors::EngineError::TypeError),
        },
        crate::paths::Seg::Index(i) => match v {
            Val::List(vs) => {
                proof {
                    lemma_list_elems(*v);
                }
                if last {
                    let copy = v.deep_copy();
                    let mut cvs = match copy {
                        Val::List(c) => c,
                        _ => Vec::new(),
                    };
                    proof {
                        assert(list_model(cvs@) =~= v@->List_0);
                    }
                    list_set_extend(&mut cvs, *i, x.deep_copy());
                    let out = Val::List(cvs);
                    proof {
                        lemma_list_elems(out);
                        assert(out@ =~~= ValModel::List(spec_list_set_extend(v@->List_0, *i as int, x@)));
                    }
                    Ok(out)
                } else if *i < vs.len() {
                    match upd_at_path_rec(&vs[*i], p, from + 1, x) {
                        Ok(c2) => {
                            let copy = v.deep_copy();
                            let mut cvs = match copy {
                                Val::List(c) => c,
                                _ => Vec::new(),
                            };
                            proof {
                                assert(list_model(cvs@) =~= v@->List_0);
                            }
                            let idx = *i;
                            cvs[idx] = c2;
                            let out = Val::List(cvs);
                            proof {
                                lemma_list_elems(out);
                                assert(out@->List_0 =~= v@->List_0.update(idx as int, upd_at_path(v@->List_0[idx as int], rest.drop_first(), x@)->Ok_0));
                            }
                            Ok(out)
                        },
                        Err(e) => Err(e),
                    }
                } else {
                    Err(crate::errors::EngineError::IndexError)
                }
            },
            _ => Err(crate::errors::EngineError::TypeError),
        },
    }
}

/// In-place deep update: fold the update dict into the target dict, expanding
/// dotted keys as paths; on failure the target is unchanged.
pub fn deep_update_inplace(target: &mut Val, updates: &Val) -> (r: Result<(), crate::errors::EngineError>)
    ensures
        match r {
            Ok(()) => upd_model(old(target)@, updates@) matches Ok(nv) && final(target)@ == nv,
            Err(e) => upd_model(old(target)@, updates@) == Err::<ValModel, crate::errors::EngineError>(e)
                && final(target)@ == old(target)@,
        },
{
    let tgt_dict = target.is_dict();
    let upd_dict = updates.is_dict();
    if !(tgt_dict && upd_dict) {
        return Err(crate::errors::EngineError::Context);
    }
    proof {
        lemma_dict_entries(*target);
        lemma_dict_entries(*updates);
    }
    let copy = target.deep_copy();
    let tes = match copy {
        Val::Dict(c) => c,
        _ => Vec::new(),
    };
    proof {
        assert(entries_model(tes@) =~= target@->Dict_0);
    }
    let ues: &Vec<(String, Val)> = match updates {
        Val::Dict(c) => c,
        _ => {
            proof {
                assert(false);
            }
            return Err(crate::errors::EngineError::Context);
        },
    };
    proof {
        assert(entries_model(ues@) =~= updates@->Dict_0);
    }
    match upd_entries_exec(&tes, ues) {
        Ok(out) => {
            let nv = Val::Dict(out);
            proof {
                lemma_dict_entries(nv);
                assert(nv@ =~~= ValModel::Dict(upd_entries(old(target)@->Dict_0, updates@->Dict_0)->Ok_0));
            }
            *target = nv;
            Ok(())
        },
        Err(e) => Err(e),
    }
}

/// Value after placing `x` at the path: the whole value is replaced at the
/// empty path, and written through [`set_path`] otherwise.
pub open spec fn place_at(m: ValModel, p: Seq<crate::paths::SegModel>, x: ValModel) -> Result<ValModel, crate::errors::EngineError> {
    if p.len() == 0 {
        Ok(x)
    } else {
        set_path(m, p, x)
    }
}

/// A write at a path that currently resolves always succeeds, and afterwards
/// the path resolves to the written value.
pub proof fn lemma_set_path_at_existing(m: ValModel, p: Seq<crate::paths::SegModel>, x: ValModel)
    requires
        get_path(m, p) is Some,
    ensures
        set_path(m, p, x) is Ok,
        p.len() > 0 ==> get_path(set_path(m, p, x)->Ok_0, p) == Some(x),
        p.len() == 0 ==> set_path(m, p, x)->Ok_0 == m,
    decreases p.len(),
{
    if p.len() > 0 {
        let last = p.len() == 1;
        match p[0] {
            crate::paths::SegModel::Key(k) => {
                let child = dict_get(m->Dict_0, k)->0;
                if last {
                    lemma_dict_set_get(m->Dict_0, k, x, k);
                    let r = set_path(m, p, x)->Ok_0;
                    assert(r == ValModel::Dict(dict_set(m->Dict_0, k, x)));
                    assert(dict_get(r->Dict_0, k) == Some(x));
                    assert(p.drop_first().len() == 0);
                    assert(get_path(x, p.drop_first()) == Some(x));
                    assert(get_path(r, p) == Some(x));
                } else {
                    lemma_set_path_at_existing(child, p.drop_first(), x);
                    let c2 = set_path(child, p.drop_first(), x)->Ok_0;
                    lemma_dict_set_get(m->Dict_0, k, c2, k);
                }
            },
            crate::paths::SegModel::Index(i) => {
                if last {
                    if m is List {
                        assert(spec_list_set_extend(m->List_0, i, x)[i] == x);
                    } else {
                        lemma_dict_set_get(m->Dict_0, crate::paths::dec_seq(i), x, crate::paths::dec_seq(i));
                    }
                } else {
                    lemma_set_path_at_existing(m->List_0[i], p.drop_first(), x);
                }
            },
        }
    }
}

impl Val {
    /// Walk the path from segment `from` on and return the reached value.
    pub fn get_at_path<'a>(&'a self, p: &Vec<crate::paths::Seg>, from: usize) -> (r: Option<&'a Val>)
        requires
            from <= p@.len(),
        ensures
            match r {
                Some(x) => get_path(self@, crate::paths::path_model(p@).skip(from as int)) == Some(x@),
                None => get_path(self@, crate::paths::path_model(p@).skip(from as int)) is None,
            },
        decreases p@.len() - from,
    {
        let ghost rest = crate::paths::path_model(p@).skip(from as int);
        if from == p.len() {
            proof {
                assert(rest.len() == 0);
            }
            return Some(self);
        }
        proof {
            assert(rest[0] == p@[from as int]@);
            assert(rest.drop_first() =~= crate::paths::path_model(p@).skip(from as int + 1));
        }
        match &p[from] {
            crate::paths::Seg::Key(k) => match self {
                Val::Dict(es) => {
                    proof {
                        lemma_dict_entries(*self);
                    }
                    match entries_get(es, k) {
                        Some(c) => c.get_at_path(p, from + 1),
                        None => None,
                    }
                },
                _ => None,
            },
            crate::paths::Seg::Index(i) => match self {
                Val::List(vs) => {
                    proof {
                        lemma_list_elems(*self);
                    }
                    if *i < vs.len() {
                        vs[*i].get_at_path(p, from + 1)
                    } else {
                        None
                    }
                },
                _ => None,
            },
        }
    }
}

} // verus!
