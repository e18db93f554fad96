//! The allocation registry's record format and its liveness decisions.
//!
//! The registry file holds newline-delimited records
//! `{"name":...,"pid":...,"session":...,"size":...,"ts":...}`. Formatting
//! and parsing are pure functions here; the host performs the file and
//! shared-memory work and asks [`partition_records`] which records belong to
//! dead owners and must go.
use vstd::prelude::*;
use crate::paths::{dec_seq, find_char, spec_parse_usize, str_to_chars, chars_to_string, lemma_find_char_at, lemma_find_char_none, parse_usize_span_pub};

verus! {

/// One allocation record: a shared-memory segment name, the owning process,
/// its session, and the segment size.
pub struct AllocRecord {
    pub name: String,
    pub pid: u64,
    pub session: String,
    pub size: u64,
}

/// Model of a record.
pub struct AllocRecordModel {
    pub name: Seq<char>,
    pub pid: int,
    pub session: Seq<char>,
    pub size: int,
}

impl View for AllocRecord {
    type V = AllocRecordModel;

    open spec fn view(&self) -> AllocRecordModel {
        AllocRecordModel { name: self.name@, pid: self.pid as int, session: self.session@, size: self.size as int }
    }
}

/// The serialized line a record produces (the timestamp is not tracked and
/// is written as zero).
pub open spec fn record_line(m: AllocRecordModel) -> Seq<char> {
    "{\"name\":\""@ + m.name + "\",\"pid\":"@ + dec_seq(m.pid) + ",\"session\":\""@ + m.session
        + "\",\"size\":"@ + dec_seq(m.size) + ",\"ts\":0.0}"@
}

/// Serialize a record as one registry line.
pub fn format_alloc_record(rec: &AllocRecord) -> (r: String)
    ensures
        r@ == record_line(rec@),
{
    let mut s = String::new();
    s.append("{\"name\":\"");
    s.append(rec.name.as_str());
    s.append("\",\"pid\":");
    let pid_str = crate::paths::usize_to_string_u64(rec.pid);
    s.append(pid_str.as_str());
    s.append(",\"session\":\"");
    s.append(rec.session.as_str());
    s.append("\",\"size\":");
    let size_str = crate::paths::usize_to_string_u64(rec.size);
    s.append(size_str.as_str());
    s.append(",\"ts\":0.0}");
    proof {
        assert(s@ =~= record_line(rec@));
    }
    s
}

/// First position where the pattern occurs, or the length when absent.
pub open spec fn find_sub(cs: Seq<char>, pat: Seq<char>) -> int
    decreases cs.len(),
{
    if pat.is_prefix_of(cs) {
        0
    } else if cs.len() == 0 {
        0
    } else {
        1 + find_sub(cs.drop_first(), pat)
    }
}

/// An occurrence after a miss-prefix is the first occurrence.
pub proof fn lemma_find_sub_at(cs: Seq<char>, pat: Seq<char>, k: int)
    requires
        0 <= k <= cs.len(),
        pat.is_prefix_of(cs.skip(k)),
        forall|i: int| 0 <= i < k ==> !pat.is_prefix_of(#[trigger] cs.skip(i)),
    ensures
        find_sub(cs, pat) == k,
    decreases k,
{
    if k == 0 {
        assert(cs.skip(0) =~= cs);
    } else {
        assert(cs.skip(0) =~= cs);
        assert(!pat.is_prefix_of(cs));
        assert forall|i: int| 0 <= i < k - 1 implies !pat.is_prefix_of(#[trigger] cs.drop_first().skip(i)) by {
            assert(cs.drop_first().skip(i) =~= cs.skip(i + 1));
        }
        assert(cs.drop_first().skip(k - 1) =~= cs.skip(k));
        lemma_find_sub_at(cs.drop_first(), pat, k - 1);
    }
}

/// With no occurrence anywhere, the first occurrence is the length.
pub proof fn lemma_find_sub_none(cs: Seq<char>, pat: Seq<char>)
    requires
        pat.len() > 0,
        forall|i: int| 0 <= i < cs.len() ==> !pat.is_prefix_of(#[trigger] cs.skip(i)),
    ensures
        find_sub(cs, pat) == cs.len(),
    decreases cs.len(),
{
    if cs.len() == 0 {
    } else {
        assert(cs.skip(0) =~= cs);
        assert forall|i: int| 0 <= i < cs.drop_first().len() implies !pat.is_prefix_of(#[trigger] cs.drop_first().skip(i)) by {
            assert(cs.drop_first().skip(i) =~= cs.skip(i + 1));
        }
        lemma_find_sub_none(cs.drop_first(), pat);
    }
}

/// How many leading characters are decimal digits.
pub open spec fn digits_len(cs: Seq<char>) -> int
    decreases cs.len(),
{
    if cs.len() > 0 && crate::paths::is_digit(cs[0]) {
        1 + digits_len(cs.drop_first())
    } else {
        0
    }
}

/// A digit run up to the first non-digit (or the end) is the digit count.
pub proof fn lemma_digits_len_at(cs: Seq<char>, k: int)
    requires
        0 <= k <= cs.len(),
        forall|i: int| 0 <= i < k ==> crate::paths::is_digit(#[trigger] cs[i]),
        k < cs.len() ==> !crate::paths::is_digit(cs[k]),
    ensures
        digits_len(cs) == k,
    decreases k,
{
    if k > 0 {
        assert forall|i: int| 0 <= i < k - 1 implies crate::paths::is_digit(#[trigger] cs.drop_first()[i]) by {
            assert(cs.drop_first()[i] == cs[i + 1]);
        }
        if k - 1 < cs.drop_first().len() {
            assert(cs.drop_first()[k - 1] == cs[k as int]);
        }
        lemma_digits_len_at(cs.drop_first(), k - 1);
    }
}

/// The string value of a labeled field: the characters between the first
/// occurrence of `label` and the next quote.
pub open spec fn field_str(cs: Seq<char>, label: Seq<char>) -> Option<Seq<char>> {
    let k = find_sub(cs, label);
    if k >= cs.len() {
        None
    } else {
        let rest = cs.skip(k + label.len());
        let j = crate::paths::find_char(rest, '"');
        if j >= rest.len() {
            None
        } else {
            Some(rest.take(j))
        }
    }
}

/// The numeric value of a labeled field: the digit run after the first
/// occurrence of `label`, read as a bounded decimal.
pub open spec fn field_num(cs: Seq<char>, label: Seq<char>) -> Option<int> {
    let k = find_sub(cs, label);
    if k >= cs.len() {
        None
    } else {
        let rest = cs.skip(k + label.len());
        let d = digits_len(rest);
        crate::paths::spec_parse_usize(rest.take(d))
    }
}

/// What a registry line parses to: the labeled `name`, `pid`, `session` and
/// `size` fields, in any order; unknown fields are opaque. Each field is
/// read at its first labeled occurrence, so a record is misread only when an
/// earlier string value itself spells out a later field's label.
pub open spec fn spec_parse_record(cs: Seq<char>) -> Option<AllocRecordModel> {
    match (field_str(cs, "\"name\":\""@), field_num(cs, "\"pid\":"@), field_str(cs, "\"session\":\""@), field_num(cs, "\"size\":"@)) {
        (Some(name), Some(pid), Some(session), Some(size)) => Some(AllocRecordModel { name, pid, session, size }),
        _ => None,
    }
}

/// Scan from `at` to the first occurrence of `c`, if any.
fn scan_to(cs: &Vec<char>, at: usize, c: char) -> (r: Option<usize>)
    requires
        at <= cs@.len(),
    ensures
        match r {
            Some(j) => at <= j < cs@.len() && find_char(cs@.skip(at as int), c) == j - at,
            None => find_char(cs@.skip(at as int), c) >= cs@.len() - at,
        },
{
    let ghost sub = cs@.skip(at as int);
    let mut j = at;
    while j < cs.len() && cs[j] != c
        invariant
            at <= j <= cs@.len(),
            sub == cs@.skip(at as int),
            forall|t: int| at <= t < j ==> cs@[t] != c,
        decreases cs@.len() - j,
    {
        j = j + 1;
    }
    proof {
        assert forall|t: int| 0 <= t < j - at implies sub[t] != c by {
            assert(sub[t] == cs@[t + at]);
        }
    }
    if j < cs.len() {
        proof {
            assert(sub[j - at] == cs@[j as int]);
            lemma_find_char_at(sub, c, j - at);
        }
        Some(j)
    } else {
        proof {
            lemma_find_char_none(sub, c);
        }
        None
    }
}

/// Whether the characters at `at` start with the literal prefix.
fn starts_at(cs: &Vec<char>, at: usize, lit: &str) -> (r: Option<usize>)
    requires
        at <= cs@.len(),
    ensures
        match r {
            Some(j) => j == at + lit@.len() && j <= cs@.len() && lit@.is_prefix_of(cs@.skip(at as int)),
            None => !lit@.is_prefix_of(cs@.skip(at as int)),
        },
{
    let lc = str_to_chars(lit);
    if cs.len() - at < lc.len() {
        proof {
            assert(cs@.skip(at as int).len() < lit@.len());
        }
        return None;
    }
    let total = cs.len();
    let mut i: usize = 0;
    while i < lc.len()
        invariant
            i <= lc@.len(),
            lc@ == lit@,
            total == cs@.len(),
            at + lc@.len() <= cs@.len(),
            forall|t: int| 0 <= t < i ==> cs@[at + t] == lit@[t],
        decreases lc@.len() - i,
    {
        if cs[at + i] != lc[i] {
            proof {
                assert(cs@.skip(at as int)[i as int] == cs@[at + i]);
            }
            return None;
        }
        i = i + 1;
    }
    proof {
        assert forall|t: int| 0 <= t < lit@.len() implies cs@.skip(at as int)[t] == lit@[t] by {
            assert(cs@.skip(at as int)[t] == cs@[at + t]);
        }
        assert(lit@ =~= cs@.skip(at as int).subrange(0, lit@.len() as int));
    }
    Some(at + lc.len())
}

/// The characters between two positions, as a string.
fn span_string(cs: &Vec<char>, from: usize, to: usize) -> (r: String)
    requires
        from <= to <= cs@.len(),
    ensures
        r@ == cs@.subrange(from as int, to as int),
{
    let mut out: Vec<char> = Vec::new();
    let mut i = from;
    while i < to
        invariant
            from <= i <= to <= cs@.len(),
            out@ =~= cs@.subrange(from as int, i as int),
        decreases to - i,
    {
        let ghost pre = out@;
        out.push(cs[i]);
        i = i + 1;
        proof {
            assert(cs@.subrange(from as int, i as int) =~= pre.push(cs@[i - 1]));
        }
    }
    chars_to_string(&out)
}

/// First position where the literal occurs, if any.
fn find_sub_exec(cs: &Vec<char>, lit: &str) -> (r: Option<usize>)
    requires
        lit@.len() > 0,
    ensures
        match r {
            Some(k) => k < cs@.len() && k + lit@.len() <= cs@.len() && find_sub(cs@, lit@) == k,
            None => find_sub(cs@, lit@) >= cs@.len(),
        },
{
    let mut i: usize = 0;
    while i < cs.len()
        invariant
            i <= cs@.len(),
            lit@.len() > 0,
            forall|t: int| 0 <= t < i ==> !lit@.is_prefix_of(#[trigger] cs@.skip(t)),
        decreases cs@.len() - i,
    {
        match starts_at(cs, i, lit) {
            Some(after) => {
                proof {
                    lemma_find_sub_at(cs@, lit@, i as int);
                    assert(cs@.skip(i as int).len() >= lit@.len());
                }
                return Some(i);
            },
            None => {},
        }
        i = i + 1;
    }
    proof {
        lemma_find_sub_none(cs@, lit@);
    }
    None
}

/// First non-digit position at or after `at`.
fn scan_digits(cs: &Vec<char>, at: usize) -> (j: usize)
    requires
        at <= cs@.len(),
    ensures
        at <= j <= cs@.len(),
        digits_len(cs@.skip(at as int)) == j - at,
{
    let mut j = at;
    while j < cs.len() && cs[j] >= '0' && cs[j] <= '9'
        invariant
            at <= j <= cs@.len(),
            forall|t: int| at <= t < j ==> crate::paths::is_digit(#[trigger] cs@[t]),
        decreases cs@.len() - j,
    {
        j = j + 1;
    }
    proof {
        let sub = cs@.skip(at as int);
        assert forall|t: int| 0 <= t < j - at implies crate::paths::is_digit(#[trigger] sub[t]) by {
            assert(sub[t] == cs@[t + at]);
        }
        if j < cs@.len() {
            assert(sub[j - at] == cs@[j as int]);
        }
        lemma_digits_len_at(sub, j - at);
    }
    j
}

/// Parse one registry line: the four labeled fields are read wherever they
/// stand, in any order, and unknown fields are left opaque.
pub fn parse_alloc_record(line: &str) -> (r: Option<AllocRecord>)
    ensures
        match r {
            Some(rec) => spec_parse_record(line@) == Some(rec@),
            None => spec_parse_record(line@) is None,
        },
{
    proof {
        reveal_strlit("\"name\":\"");
        reveal_strlit("\"pid\":");
        reveal_strlit("\"session\":\"");
        reveal_strlit("\"size\":");
    }
    let cs = str_to_chars(line);
    let name = match read_str_field(&cs, "\"name\":\"") {
        Some(v) => v,
        None => {
            return None;
        },
    };
    let pid = match read_num_field(&cs, "\"pid\":") {
        Some(v) => v,
        None => {
            return None;
        },
    };
    let session = match read_str_field(&cs, "\"session\":\"") {
        Some(v) => v,
        None => {
            return None;
        },
    };
    let size = match read_num_field(&cs, "\"size\":") {
        Some(v) => v,
        None => {
            return None;
        },
    };
    Some(AllocRecord { name, pid: pid as u64, session, size: size as u64 })
}

/// Read a labeled string field: the characters between the label's first
/// occurrence and the next quote.
fn read_str_field(cs: &Vec<char>, label: &str) -> (r: Option<String>)
    requires
        label@.len() > 0,
    ensures
        match r {
            Some(v) => field_str(cs@, label@) == Some(v@),
            None => field_str(cs@, label@) is None,
        },
{
    let k = match find_sub_exec(cs, label) {
        Some(k) => k,
        None => {
            return None;
        },
    };
    let lc = str_to_chars(label);
    let total = cs.len();
    proof {
        assert(k + lc@.len() <= total);
    }
    let start = k + lc.len();
    let ghost rest = cs@.skip(start as int);
    let e = match scan_to(cs, start, '"') {
        Some(e) => e,
        None => {
            proof {
                crate::paths::lemma_find_char_range(rest, '"');
            }
            return None;
        },
    };
    let v = span_string(cs, start, e);
    proof {
        assert(rest.take(e - start) =~= cs@.subrange(start as int, e as int));
    }
    Some(v)
}

/// Read a labeled numeric field: the digit run after the label's first
/// occurrence, as a bounded decimal.
fn read_num_field(cs: &Vec<char>, label: &str) -> (r: Option<usize>)
    requires
        label@.len() > 0,
    ensures
        match r {
            Some(v) => field_num(cs@, label@) == Some(v as int),
            None => field_num(cs@, label@) is None,
        },
{
    let k = match find_sub_exec(cs, label) {
        Some(k) => k,
        None => {
            return None;
        },
    };
    let lc = str_to_chars(label);
    let total = cs.len();
    proof {
        assert(k + lc@.len() <= total);
    }
    let start = k + lc.len();
    let ghost rest = cs@.skip(start as int);
    let j = scan_digits(cs, start);
    proof {
        assert(rest.take(j - start) =~= cs@.subrange(start as int, j as int));
    }
    match parse_usize_span_pub(cs, start, j) {
        Some(v) => Some(v),
        None => None,
    }
}

/// Whether the pid is the host's own or among the live ones.
pub open spec fn spec_alive(pid: int, self_pid: int, alive: Seq<u64>) -> bool {
    pid == self_pid || exists|j: int| 0 <= j < alive.len() && (#[trigger] alive[j]) as int == pid
}

/// The records whose owner is alive, in order.
pub open spec fn live_records(rs: Seq<AllocRecordModel>, self_pid: int, alive: Seq<u64>) -> Seq<AllocRecordModel>
    decreases rs.len(),
{
    if rs.len() == 0 {
        Seq::empty()
    } else {
        let head = if spec_alive(rs[0].pid, self_pid, alive) {
            seq![rs[0]]
        } else {
            Seq::<AllocRecordModel>::empty()
        };
        head + live_records(rs.drop_first(), self_pid, alive)
    }
}

/// The names of the records whose owner is dead, in order.
pub open spec fn dead_names(rs: Seq<AllocRecordModel>, self_pid: int, alive: Seq<u64>) -> Seq<Seq<char>>
    decreases rs.len(),
{
    if rs.len() == 0 {
        Seq::empty()
    } else {
        let head = if spec_alive(rs[0].pid, self_pid, alive) {
            Seq::<Seq<char>>::empty()
        } else {
            seq![rs[0].name]
        };
        head + dead_names(rs.drop_first(), self_pid, alive)
    }
}

/// Model of a record vector.
pub open spec fn recs_model(rs: Seq<AllocRecord>) -> Seq<AllocRecordModel> {
    Seq::new(rs.len(), |i: int| if 0 <= i < rs.len() { rs[i]@ } else { AllocRecordModel { name: Seq::empty(), pid: 0, session: Seq::empty(), size: 0 } })
}

/// Model of a name vector.
pub open spec fn names_model(ns: Seq<String>) -> Seq<Seq<char>> {
    Seq::new(ns.len(), |i: int| if 0 <= i < ns.len() { ns[i]@ } else { Seq::<char>::empty() })
}

/// Split the registry: the records whose owner is alive (the host's own
/// pid, or any of the live pids) are kept in order; the names of the rest
/// come back in order for the host to unlink.
pub fn partition_records(records: Vec<AllocRecord>, alive_pids: &Vec<u64>, self_pid: u64) -> (r: (Vec<AllocRecord>, Vec<String>))
    ensures
        recs_model(r.0@) == live_records(recs_model(records@), self_pid as int, alive_pids@),
        names_model(r.1@) == dead_names(recs_model(records@), self_pid as int, alive_pids@),
{
    let mut rest = records;
    let mut keep: Vec<AllocRecord> = Vec::new();
    let mut gone: Vec<String> = Vec::new();
    let ghost all = recs_model(rest@);
    proof {
        assert(all.skip(0) =~= all);
        assert(recs_model(keep@) + live_records(all.skip(0), self_pid as int, alive_pids@)
            =~= live_records(all, self_pid as int, alive_pids@));
        assert(names_model(gone@) + dead_names(all.skip(0), self_pid as int, alive_pids@)
            =~= dead_names(all, self_pid as int, alive_pids@));
    }
    while rest.len() > 0
        invariant
            rest@.len() <= all.len(),
            recs_model(rest@) =~= all.skip(all.len() - rest@.len()),
            recs_model(keep@) + live_records(all.skip(all.len() - rest@.len()), self_pid as int, alive_pids@)
                =~= live_records(all, self_pid as int, alive_pids@),
            names_model(gone@) + dead_names(all.skip(all.len() - rest@.len()), self_pid as int, alive_pids@)
                =~= dead_names(all, self_pid as int, alive_pids@),
        decreases rest@.len(),
    {
        let ghost done = all.len() - rest@.len();
        let ghost here = all.skip(done);
        let ghost prerest = rest@;
        let rec = rest.remove(0);
        proof {
            assert(recs_model(prerest)[0] == prerest[0]@);
            assert(here[0] == all[done]);
            assert(rec@ == all[done]);
            assert forall|k: int| 0 <= k < rest@.len() implies recs_model(rest@)[k] == all.skip(done + 1)[k] by {
                assert(rest@[k] == prerest[k + 1]);
                assert(recs_model(prerest)[k + 1] == prerest[k + 1]@);
                assert(recs_model(prerest)[k + 1] == all.skip(done)[k + 1]);
            }
            assert(recs_model(rest@) =~= all.skip(done + 1));
            assert(here.drop_first() =~= all.skip(done + 1));
        }
        let mut alive = rec.pid == self_pid;
        if !alive {
            let mut j: usize = 0;
            while j < alive_pids.len()
                invariant
                    j <= alive_pids@.len(),
                    !alive ==> forall|t: int| 0 <= t < j ==> (#[trigger] alive_pids@[t]) != rec.pid,
                    alive ==> spec_alive(rec@.pid, self_pid as int, alive_pids@),
                decreases alive_pids@.len() - j,
            {
                if alive_pids[j] == rec.pid {
                    proof {
                        assert((alive_pids@[j as int]) as int == rec@.pid);
                    }
                    alive = true;
                }
                j = j + 1;
            }
        }
        proof {
            if !alive {
                assert forall|t: int| 0 <= t < alive_pids@.len() implies (#[trigger] alive_pids@[t]) as int != all[done].pid by {
                    assert(alive_pids@[t] != rec.pid);
                }
                assert(!spec_alive(all[done].pid, self_pid as int, alive_pids@));
            } else {
                assert(spec_alive(all[done].pid, self_pid as int, alive_pids@));
            }
        }
        if alive {
            let ghost keep_pre = recs_model(keep@);
            keep.push(rec);
            proof {
                assert(recs_model(keep@) =~= keep_pre.push(all[done]));
                assert(recs_model(keep@) + live_records(here.drop_first(), self_pid as int, alive_pids@)
                    =~= live_records(all, self_pid as int, alive_pids@));
            }
        } else {
            let ghost gone_pre = names_model(gone@);
            gone.push(rec.name);
            proof {
                assert(names_model(gone@) =~= gone_pre.push(all[done].name));
                assert(names_model(gone@) + dead_names(here.drop_first(), self_pid as int, alive_pids@)
                    =~= dead_names(all, self_pid as int, alive_pids@));
            }
        }
    }
    proof {
        assert(all.skip(all.len() as int).len() == 0);
        assert(recs_model(keep@) =~= live_records(all, self_pid as int, alive_pids@));
        assert(names_model(gone@) =~= dead_names(all, self_pid as int, alive_pids@));
    }
    (keep, gone)
}

} // verus!
