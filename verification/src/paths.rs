//! Paths: sequences of named keys and integer indices, written `a.b[0].c`.
//!
//! Parsing and printing are pure functions between the string form and the
//! segment form; the engine works on segments and keeps the string form for
//! the delta log and the version map.
use vstd::prelude::*;
use vstd::std_specs::iter::IteratorSpec;

verus! {

/// One path segment: a named key or an integer index.
#[derive(Debug, Clone)]
pub enum Seg {
    Key(String),
    Index(usize),
}

/// Mathematical model of a segment.
pub enum SegModel {
    Key(Seq<char>),
    Index(int),
}

impl View for Seg {
    type V = SegModel;

    open spec fn view(&self) -> SegModel {
        match self {
            Seg::Key(k) => SegModel::Key(k@),
            Seg::Index(i) => SegModel::Index(*i as int),
        }
    }
}

/// Model of a whole path.
pub open spec fn path_model(p: Seq<Seg>) -> Seq<SegModel> {
    Seq::new(p.len(), |i: int| if 0 <= i < p.len() { p[i]@ } else { SegModel::Index(0) })
}

/// Character for a decimal digit.
pub open spec fn digit_char(d: int) -> char {
    ((d + 48) as u8) as char
}

/// Decimal form of a natural number, most significant digit first.
pub open spec fn dec_seq(n: int) -> Seq<char>
    decreases n,
{
    if n < 10 {
        seq![digit_char(n)]
    } else {
        dec_seq(n / 10).push(digit_char(n % 10))
    }
}

/// Relies on std's String::push: appends exactly the one character.
#[verifier::external_body]
pub fn push_char(s: &mut String, c: char)
    ensures
        final(s)@ == old(s)@.push(c),
{
    s.push(c);
}

/// The characters of a string, in order.
pub fn str_to_chars(s: &str) -> (v: Vec<char>)
    ensures
        v@ == s@,
{
    broadcast use vstd::string::next_postcondition, vstd::string::axiom_spec_iter;

    let mut it = s.chars();
    let mut v: Vec<char> = Vec::new();
    loop
        invariant
            it.obeys_prophetic_iter_laws(),
            it.decrease() is Some,
            s@ == v@ + it.remaining(),
        decreases it.decrease()->0,
    {
        let ghost pre = it.remaining();
        match it.next() {
            Some(c) => {
                v.push(c);
            },
            None => {
                proof {
                    assert(v@ =~= s@);
                }
                return v;
            },
        }
    }
}

/// Decimal rendering of an index.
pub fn usize_to_string(n: usize) -> (s: String)
    ensures
        s@ == dec_seq(n as int),
{
    let mut digits: Vec<char> = Vec::new();
    let mut m = n;
    loop
        invariant_except_break
            dec_seq(n as int) == dec_seq(m as int) + digits@.reverse(),
        ensures
            dec_seq(n as int) == digits@.reverse(),
        decreases m,
    {
        let d: u8 = (m % 10) as u8;
        let c: char = (d + 48) as char;
        let ghost before = digits@;
        digits.push(c);
        proof {
            assert(digits@.reverse() =~= seq![c] + before.reverse());
            if m >= 10 {
                assert(dec_seq(m as int) == dec_seq(m as int / 10).push(digit_char(m as int % 10)));
                assert(dec_seq(m as int / 10).push(digit_char(m as int % 10)) + before.reverse()
                    =~= dec_seq(m as int / 10) + (seq![digit_char(m as int % 10)] + before.reverse()));
            } else {
                assert(dec_seq(m as int) =~= seq![digit_char(m as int)]);
                assert(seq![digit_char(m as int)] + before.reverse() =~= digits@.reverse());
            }
        }
        m = m / 10;
        if m == 0 {
            break;
        }
    }
    let mut s = String::new();
    let mut i = digits.len();
    while i > 0
        invariant
            i <= digits@.len(),
            s@ == digits@.subrange(i as int, digits@.len() as int).reverse(),
        decreases i,
    {
        let ghost pre = s@;
        i = i - 1;
        push_char(&mut s, digits[i]);
        proof {
            assert(digits@.subrange(i as int, digits@.len() as int).reverse()
                =~= pre.push(digits@[i as int]));
        }
    }
    proof {
        assert(digits@.subrange(0, digits@.len() as int) =~= digits@);
        assert(s@ =~= digits@.reverse());
        assert(dec_seq(n as int) =~= digits@.reverse());
    }
    s
}

/// A string holding exactly the given characters.
pub fn chars_to_string(v: &Vec<char>) -> (s: String)
    ensures
        s@ == v@,
{
    let mut s = String::new();
    let mut i: usize = 0;
    while i < v.len()
        invariant
            i <= v@.len(),
            s@ == v@.subrange(0, i as int),
        decreases v@.len() - i,
    {
        let ghost pre = s@;
        push_char(&mut s, v[i]);
        i = i + 1;
        proof {
            assert(v@.subrange(0, i as int) =~= pre.push(v@[i as int - 1]));
        }
    }
    proof {
        assert(v@.subrange(0, v@.len() as int) =~= v@);
    }
    s
}

/// Whether the character is a decimal digit.
pub open spec fn is_digit(c: char) -> bool {
    48 <= c as int <= 57
}

/// Numeric value of a digit character.
pub open spec fn digit_val(c: char) -> int {
    c as int - 48
}

/// Bounded decimal accumulator: the value of the digits, or nothing when a
/// non-digit appears or the value leaves `usize`.
pub open spec fn spec_parse_usize_rec(cs: Seq<char>, acc: int) -> Option<int>
    decreases cs.len(),
{
    if cs.len() == 0 {
        Some(acc)
    } else if !is_digit(cs[0]) {
        None
    } else if acc * 10 + digit_val(cs[0]) > usize::MAX as int {
        None
    } else {
        spec_parse_usize_rec(cs.drop_first(), acc * 10 + digit_val(cs[0]))
    }
}

/// Decimal reading of a bracketed index, as `usize` parsing accepts it:
/// one or more digits whose value fits.
pub open spec fn spec_parse_usize(cs: Seq<char>) -> Option<int> {
    if cs.len() == 0 {
        None
    } else {
        spec_parse_usize_rec(cs, 0)
    }
}

/// Index of the first occurrence of `c`, or the length when absent.
pub open spec fn find_char(cs: Seq<char>, c: char) -> int
    decreases cs.len(),
{
    if cs.len() == 0 {
        0
    } else if cs[0] == c {
        0
    } else {
        1 + find_char(cs.drop_first(), c)
    }
}

/// The first-occurrence index is in range, hits `c`, and nothing before does.
pub proof fn lemma_find_char_range(cs: Seq<char>, c: char)
    ensures
        0 <= find_char(cs, c) <= cs.len(),
        find_char(cs, c) < cs.len() ==> cs[find_char(cs, c)] == c,
        forall|j: int| 0 <= j < find_char(cs, c) ==> cs[j] != c,
    decreases cs.len(),
{
    if cs.len() > 0 && cs[0] != c {
        lemma_find_char_range(cs.drop_first(), c);
        let f = find_char(cs, c);
        assert forall|j: int| 0 <= j < f implies cs[j] != c by {
            if j > 0 {
                assert(cs[j] == cs.drop_first()[j - 1]);
            }
        }
    }
}

/// Characterisation of the first occurrence: a hit after a miss-prefix is it.
pub proof fn lemma_find_char_at(cs: Seq<char>, c: char, k: int)
    requires
        0 <= k < cs.len(),
        cs[k] == c,
        forall|j: int| 0 <= j < k ==> cs[j] != c,
    ensures
        find_char(cs, c) == k,
    decreases k,
{
    if k > 0 {
        assert forall|j: int| 0 <= j < k - 1 implies cs.drop_first()[j] != c by {
            assert(cs.drop_first()[j] == cs[j + 1]);
        }
        lemma_find_char_at(cs.drop_first(), c, k - 1);
    }
}

/// When no character matches, the first occurrence is the length.
pub proof fn lemma_find_char_none(cs: Seq<char>, c: char)
    requires
        forall|j: int| 0 <= j < cs.len() ==> cs[j] != c,
    ensures
        find_char(cs, c) == cs.len(),
    decreases cs.len(),
{
    if cs.len() > 0 {
        assert forall|j: int| 0 <= j < cs.drop_first().len() implies cs.drop_first()[j] != c by {
            assert(cs.drop_first()[j] == cs[j + 1]);
        }
        lemma_find_char_none(cs.drop_first(), c);
    }
}

/// Whether the character is a single or double quote.
pub open spec fn is_quote(c: char) -> bool {
    c == '\'' || c == '"'
}

/// The characters with leading quotes removed.
pub open spec fn trim_quotes_front(cs: Seq<char>) -> Seq<char>
    decreases cs.len(),
{
    if cs.len() > 0 && is_quote(cs[0]) {
        trim_quotes_front(cs.drop_first())
    } else {
        cs
    }
}

/// The characters with trailing quotes removed.
pub open spec fn trim_quotes_back(cs: Seq<char>) -> Seq<char>
    decreases cs.len(),
{
    if cs.len() > 0 && is_quote(cs.last()) {
        trim_quotes_back(cs.drop_last())
    } else {
        cs
    }
}

/// The characters with quotes removed from both ends.
pub open spec fn trim_quotes(cs: Seq<char>) -> Seq<char> {
    trim_quotes_back(trim_quotes_front(cs))
}

/// The pending key characters as a segment, when any.
pub open spec fn flush_key(cur: Seq<char>) -> Seq<SegModel> {
    if cur.len() == 0 {
        Seq::empty()
    } else {
        seq![SegModel::Key(cur)]
    }
}

/// The segment a bracketed chunk stands for: an index when it reads as one,
/// else a key with quotes trimmed.
pub open spec fn bracket_seg(content: Seq<char>) -> SegModel {
    match spec_parse_usize(content) {
        Some(v) => SegModel::Index(v),
        None => SegModel::Key(trim_quotes(content)),
    }
}

/// Path grammar: `.` closes the pending key, `[...]` closes the pending key
/// and adds the bracketed segment, any other character extends the pending
/// key; a pending key at the end is kept.
pub open spec fn spec_parse_path_rec(cs: Seq<char>, cur: Seq<char>) -> Seq<SegModel>
    decreases cs.len(),
    via spec_parse_path_rec_decreases
{
    if cs.len() == 0 {
        flush_key(cur)
    } else if cs[0] == '.' {
        flush_key(cur) + spec_parse_path_rec(cs.drop_first(), Seq::empty())
    } else if cs[0] == '[' {
        let rest = cs.drop_first();
        let j = find_char(rest, ']');
        let content = rest.take(j);
        let after = if j < rest.len() {
            rest.skip(j + 1)
        } else {
            Seq::empty()
        };
        flush_key(cur) + seq![bracket_seg(content)] + spec_parse_path_rec(after, Seq::empty())
    } else {
        spec_parse_path_rec(cs.drop_first(), cur.push(cs[0]))
    }
}

#[via_fn]
proof fn spec_parse_path_rec_decreases(cs: Seq<char>, cur: Seq<char>) {
    if cs.len() > 0 && cs[0] != '.' && cs[0] == '[' {
        lemma_find_char_range(cs.drop_first(), ']');
    }
}

/// Segments of a path string.
pub open spec fn spec_parse_path(cs: Seq<char>) -> Seq<SegModel> {
    spec_parse_path_rec(cs, Seq::empty())
}

/// Dropping a quote prefix of known length trims the front.
pub proof fn lemma_trim_front_at(cs: Seq<char>, t: int)
    requires
        0 <= t <= cs.len(),
        forall|j: int| 0 <= j < t ==> is_quote(cs[j]),
        t < cs.len() ==> !is_quote(cs[t]),
    ensures
        trim_quotes_front(cs) =~= cs.skip(t),
    decreases t,
{
    if t == 0 {
        assert(cs.skip(0) =~= cs);
    } else {
        assert forall|j: int| 0 <= j < t - 1 implies is_quote(cs.drop_first()[j]) by {
            assert(cs.drop_first()[j] == cs[j + 1]);
        }
        lemma_trim_front_at(cs.drop_first(), t - 1);
        assert(cs.drop_first().skip(t - 1) =~= cs.skip(t));
    }
}

/// Dropping a quote suffix of known length trims the back.
pub proof fn lemma_trim_back_at(cs: Seq<char>, t: int)
    requires
        0 <= t <= cs.len(),
        forall|j: int| t <= j < cs.len() ==> is_quote(cs[j]),
        t > 0 ==> !is_quote(cs[t - 1]),
    ensures
        trim_quotes_back(cs) =~= cs.take(t),
    decreases cs.len() - t,
{
    if t == cs.len() {
        if cs.len() > 0 && is_quote(cs.last()) {
            assert(false);
        }
        assert(cs.take(t) =~= cs);
    } else {
        assert(is_quote(cs.last()));
        lemma_trim_back_at(cs.drop_last(), t);
        assert(cs.drop_last().take(t) =~= cs.take(t));
    }
}

/// Bounded decimal reading of a character span.
fn parse_usize_span(cs: &Vec<char>, start: usize, end: usize) -> (r: Option<usize>)
    requires
        start <= end <= cs@.len(),
    ensures
        match r {
            Some(v) => spec_parse_usize(cs@.subrange(start as int, end as int)) == Some(v as int),
            None => spec_parse_usize(cs@.subrange(start as int, end as int)) is None,
        },
{
    if start == end {
        return None;
    }
    parse_usize_span_rec(cs, start, end, 0)
}

fn parse_usize_span_rec(cs: &Vec<char>, i: usize, end: usize, acc: usize) -> (r: Option<usize>)
    requires
        i <= end <= cs@.len(),
    ensures
        match r {
            Some(v) => spec_parse_usize_rec(cs@.subrange(i as int, end as int), acc as int) == Some(v as int),
            None => spec_parse_usize_rec(cs@.subrange(i as int, end as int), acc as int) is None,
        },
    decreases end - i,
{
    let ghost span = cs@.subrange(i as int, end as int);
    if i == end {
        proof {
            assert(span.len() == 0);
        }
        return Some(acc);
    }
    let c = cs[i];
    proof {
        assert(span[0] == cs@[i as int]);
    }
    let dv: Option<usize> = match c {
        '0' => Some(0),
        '1' => Some(1),
        '2' => Some(2),
        '3' => Some(3),
        '4' => Some(4),
        '5' => Some(5),
        '6' => Some(6),
        '7' => Some(7),
        '8' => Some(8),
        '9' => Some(9),
        _ => None,
    };
    let d = match dv {
        Some(d) => d,
        None => {
            proof {
                assert(!is_digit(span[0]));
            }
            return None;
        },
    };
    proof {
        assert(is_digit(span[0]));
        assert(d as int == digit_val(span[0]));
    }
    let wide: u128 = acc as u128 * 10 + d as u128;
    if wide > usize::MAX as u128 {
        proof {
            assert(acc as int * 10 + digit_val(span[0]) > usize::MAX as int);
        }
        return None;
    }
    let next = wide as usize;
    proof {
        assert(next as int == acc as int * 10 + digit_val(span[0]));
        assert(span.drop_first() =~= cs@.subrange(i as int + 1, end as int));
    }
    parse_usize_span_rec(cs, i + 1, end, next)
}

/// Model of a segment vector.
pub open spec fn segs_model(p: Seq<Seg>) -> Seq<SegModel> {
    path_model(p)
}

/// Bounded decimal reading of a character span.
pub fn parse_usize_span_pub(cs: &Vec<char>, start: usize, end: usize) -> (r: Option<usize>)
    requires
        start <= end <= cs@.len(),
    ensures
        match r {
            Some(v) => spec_parse_usize(cs@.subrange(start as int, end as int)) == Some(v as int),
            None => spec_parse_usize(cs@.subrange(start as int, end as int)) is None,
        },
{
    parse_usize_span(cs, start, end)
}

/// Decimal rendering of a 64-bit number.
pub fn usize_to_string_u64(n: u64) -> (s: String)
    ensures
        s@ == dec_seq(n as int),
{
    let mut digits: Vec<char> = Vec::new();
    let mut m = n;
    loop
        invariant_except_break
            dec_seq(n as int) == dec_seq(m as int) + digits@.reverse(),
        ensures
            dec_seq(n as int) == digits@.reverse(),
        decreases m,
    {
        let d: u8 = (m % 10) as u8;
        let c: char = (d + 48) as char;
        let ghost before = digits@;
        digits.push(c);
        proof {
            assert(digits@.reverse() =~= seq![c] + before.reverse());
            if m >= 10 {
                assert(dec_seq(m as int) == dec_seq(m as int / 10).push(digit_char(m as int % 10)));
                assert(dec_seq(m as int / 10).push(digit_char(m as int % 10)) + before.reverse()
                    =~= dec_seq(m as int / 10) + (seq![digit_char(m as int % 10)] + before.reverse()));
            } else {
                assert(dec_seq(m as int) =~= seq![digit_char(m as int)]);
                assert(seq![digit_char(m as int)] + before.reverse() =~= digits@.reverse());
            }
        }
        m = m / 10;
        if m == 0 {
            break;
        }
    }
    let mut s = String::new();
    let mut i = digits.len();
    while i > 0
        invariant
            i <= digits@.len(),
            s@ == digits@.subrange(i as int, digits@.len() as int).reverse(),
        decreases i,
    {
        let ghost pre = s@;
        i = i - 1;
        push_char(&mut s, digits[i]);
        proof {
            assert(digits@.subrange(i as int, digits@.len() as int).reverse()
                =~= pre.push(digits@[i as int]));
        }
    }
    proof {
        assert(digits@.subrange(0, digits@.len() as int) =~= digits@);
        assert(s@ =~= digits@.reverse());
        assert(dec_seq(n as int) =~= digits@.reverse());
    }
    s
}

#[verifier::rlimit(60)]
fn parse_path_rec(cs: &Vec<char>, i: usize, cur: Vec<char>, out: &mut Vec<Seg>)
    requires
        i <= cs@.len(),
    ensures
        path_model(final(out)@) =~= path_model(old(out)@) + spec_parse_path_rec(cs@.skip(i as int), cur@),
    decreases cs@.len() - i,
{
    let ghost rest = cs@.skip(i as int);
    if i == cs.len() {
        proof {
            assert(rest.len() == 0);
        }
        if cur.len() > 0 {
            let ghost pre = out@;
            out.push(Seg::Key(chars_to_string(&cur)));
            proof {
                assert(path_model(out@) =~= path_model(pre) + flush_key(cur@));
            }
        } else {
            proof {
                assert(path_model(out@) =~= path_model(out@) + flush_key(cur@));
            }
        }
        return;
    }
    let c = cs[i];
    proof {
        assert(rest[0] == cs@[i as int]);
        assert(rest.drop_first() =~= cs@.skip(i as int + 1));
    }
    if c == '.' {
        if cur.len() > 0 {
            let ghost pre = out@;
            out.push(Seg::Key(chars_to_string(&cur)));
            proof {
                assert(path_model(out@) =~= path_model(pre) + flush_key(cur@));
            }
        }
        let ghost mid = out@;
        parse_path_rec(cs, i + 1, Vec::new(), out);
        proof {
            assert(path_model(out@) =~= path_model(mid) + spec_parse_path_rec(rest.drop_first(), Seq::empty()));
        }
        return;
    }
    if c == '[' {
        if cur.len() > 0 {
            let ghost pre = out@;
            out.push(Seg::Key(chars_to_string(&cur)));
            proof {
                assert(path_model(out@) =~= path_model(pre) + flush_key(cur@));
            }
        }
        // scan for the closing bracket
        let ghost sub = cs@.skip(i as int + 1);
        let mut j = i + 1;
        while j < cs.len() && cs[j] != ']'
            invariant
                i + 1 <= j <= cs@.len(),
                forall|k: int| i + 1 <= k < j ==> cs@[k] != ']',
            decreases cs@.len() - j,
        {
            j = j + 1;
        }
        proof {
            assert forall|k: int| 0 <= k < j - i - 1 implies sub[k] != ']' by {
                assert(sub[k] == cs@[k + i + 1]);
            }
            if j < cs@.len() {
                assert(sub[j - i - 1] == cs@[j as int]);
                lemma_find_char_at(sub, ']', j - i - 1);
            } else {
                lemma_find_char_none(sub, ']');
            }
            assert(find_char(sub, ']') == j - i - 1);
        }
        let ghost content = sub.take(j - i - 1);
        proof {
            assert(content =~= cs@.subrange(i as int + 1, j as int));
        }
        // read the chunk as an index, else as a quote-trimmed key
        let seg = match parse_usize_span(cs, i + 1, j) {
            Some(v) => Seg::Index(v),
            None => {
                let mut a = i + 1;
                while a < j && (cs[a] == '\'' || cs[a] == '"')
                    invariant
                        i + 1 <= a <= j,
                        j <= cs@.len(),
                        forall|k: int| i + 1 <= k < a ==> is_quote(cs@[k]),
                    decreases j - a,
                {
                    a = a + 1;
                }
                let mut b = j;
                while b > a && (cs[b - 1] == '\'' || cs[b - 1] == '"')
                    invariant
                        a <= b <= j,
                        j <= cs@.len(),
                        forall|k: int| b <= k < j ==> is_quote(cs@[k]),
                    decreases b,
                {
                    b = b - 1;
                }
                let mut key: Vec<char> = Vec::new();
                let mut t = a;
                while t < b
                    invariant
                        a <= t <= b <= cs@.len(),
                        key@ =~= cs@.subrange(a as int, t as int),
                    decreases b - t,
                {
                    let ghost prek = key@;
                    key.push(cs[t]);
                    t = t + 1;
                    proof {
                        assert(cs@.subrange(a as int, t as int) =~= prek.push(cs@[t - 1]));
                    }
                }
                proof {
                    assert forall|k: int| 0 <= k < a - i - 1 implies is_quote(content[k]) by {
                        assert(content[k] == cs@[k + i + 1]);
                    }
                    if a < j {
                        assert(content[a - i - 1] == cs@[a as int]);
                    }
                    lemma_trim_front_at(content, a - i - 1);
                    let fronted = content.skip(a - i - 1);
                    assert forall|k: int| b - a <= k < fronted.len() implies is_quote(fronted[k]) by {
                        assert(fronted[k] == cs@[k + a]);
                    }
                    if b > a {
                        assert(fronted[b - a - 1] == cs@[b as int - 1]);
                    }
                    lemma_trim_back_at(fronted, b - a);
                    assert(trim_quotes(content) =~= fronted.take(b - a));
                    assert(fronted.take(b - a) =~= cs@.subrange(a as int, b as int));
                    assert(key@ =~= trim_quotes(content));
                }
                Seg::Key(chars_to_string(&key))
            },
        };
        let ghost mid = out@;
        out.push(seg);
        proof {
            assert(path_model(out@) =~= path_model(mid) + seq![bracket_seg(content)]);
        }
        let next = if j < cs.len() {
            j + 1
        } else {
            j
        };
        let ghost mid2 = out@;
        parse_path_rec(cs, next, Vec::new(), out);
        proof {
            if j < cs@.len() {
                assert(sub.skip(j - i) =~= cs@.skip(j as int + 1));
            } else {
                assert(cs@.skip(j as int) =~= Seq::<char>::empty());
            }
            assert(path_model(out@) =~= path_model(mid2) + spec_parse_path_rec(cs@.skip(next as int), Seq::empty()));
        }
        return;
    }
    let mut cur2 = cur;
    cur2.push(c);
    parse_path_rec(cs, i + 1, cur2, out);
}

/// Whether `p` is a prefix of `s`, character by character.
pub fn chars_has_prefix(s: &Vec<char>, p: &Vec<char>) -> (r: bool)
    ensures
        r == p@.is_prefix_of(s@),
{
    if p.len() > s.len() {
        proof {
            assert(!p@.is_prefix_of(s@));
        }
        return false;
    }
    let mut i: usize = 0;
    while i < p.len()
        invariant
            i <= p@.len() <= s@.len(),
            forall|j: int| 0 <= j < i ==> p@[j] == s@[j],
        decreases p@.len() - i,
    {
        if p[i] != s[i] {
            proof {
                assert(p@[i as int] != s@.subrange(0, p@.len() as int)[i as int]);
            }
            return false;
        }
        i = i + 1;
    }
    proof {
        assert(p@ =~= s@.subrange(0, p@.len() as int));
    }
    true
}

/// Whether the two character vectors are equal.
pub fn chars_eq(s: &Vec<char>, p: &Vec<char>) -> (r: bool)
    ensures
        r == (s@ == p@),
{
    if s.len() != p.len() {
        return false;
    }
    let mut i: usize = 0;
    while i < p.len()
        invariant
            i <= p@.len(),
            s@.len() == p@.len(),
            forall|j: int| 0 <= j < i ==> p@[j] == s@[j],
        decreases p@.len() - i,
    {
        if p[i] != s[i] {
            return false;
        }
        i = i + 1;
    }
    proof {
        assert(p@ =~= s@);
    }
    true
}

/// Segments of a path string such as `domain.users[0].name`; bracketed
/// chunks become indices when they read as one, else quote-trimmed keys.
pub fn parse_path_segments(path: &str) -> (r: Vec<Seg>)
    ensures
        path_model(r@) == spec_parse_path(path@),
{
    let cs = str_to_chars(path);
    let mut out: Vec<Seg> = Vec::new();
    parse_path_rec(&cs, 0, Vec::new(), &mut out);
    proof {
        assert(cs@.skip(0) =~= path@);
        assert(path_model(out@) =~= spec_parse_path(path@));
    }
    out
}

} // verus!
