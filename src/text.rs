//! Character-level helpers shared by the tokenizer, the tracker and the parser.
use vstd::prelude::*;

verus! {

/// Unicode `White_Space` code points.
pub open spec fn is_ws(c: char) -> bool {
    ('\u{9}' <= c && c <= '\u{d}') || c == ' ' || c == '\u{85}' || c == '\u{a0}' || c
        == '\u{1680}' || ('\u{2000}' <= c && c <= '\u{200a}') || c == '\u{2028}' || c
        == '\u{2029}' || c == '\u{202f}' || c == '\u{205f}' || c == '\u{3000}'
}

pub open spec fn all_ws(s: Seq<char>) -> bool {
    forall|i: int| 0 <= i < s.len() ==> is_ws(#[trigger] s[i])
}

/// Number of leading characters that satisfy `f`.
pub open spec fn lead_count(s: Seq<char>, f: spec_fn(char) -> bool) -> nat
    decreases s.len(),
{
    if s.len() > 0 && f(s[0]) {
        1 + lead_count(s.drop_first(), f)
    } else {
        0
    }
}

/// Number of trailing characters that satisfy `f`.
pub open spec fn trail_count(s: Seq<char>, f: spec_fn(char) -> bool) -> nat
    decreases s.len(),
{
    if s.len() > 0 && f(s.last()) {
        1 + trail_count(s.drop_last(), f)
    } else {
        0
    }
}

/// `s` without its leading and trailing characters that satisfy `f`.
pub open spec fn trim_by(s: Seq<char>, f: spec_fn(char) -> bool) -> Seq<char> {
    let t = s.subrange(lead_count(s, f) as int, s.len() as int);
    t.subrange(0, t.len() - trail_count(t, f))
}

pub open spec fn ws_pred() -> spec_fn(char) -> bool {
    |c: char| is_ws(c)
}

pub open spec fn lead_ws(s: Seq<char>) -> nat {
    lead_count(s, ws_pred())
}

pub open spec fn trim_start(s: Seq<char>) -> Seq<char> {
    s.subrange(lead_ws(s) as int, s.len() as int)
}

pub open spec fn trim(s: Seq<char>) -> Seq<char> {
    trim_by(s, ws_pred())
}

pub open spec fn nonempty(p: Seq<char>) -> bool {
    p.len() > 0
}

pub open spec fn starts_with(s: Seq<char>, p: Seq<char>) -> bool {
    p.len() <= s.len() && s.subrange(0, p.len() as int) == p
}

pub proof fn lemma_lead_count(s: Seq<char>, f: spec_fn(char) -> bool, i: int)
    requires
        0 <= i <= s.len(),
        forall|j: int| 0 <= j < i ==> f(#[trigger] s[j]),
        i == s.len() || !f(s[i]),
    ensures
        lead_count(s, f) == i,
    decreases i,
{
    if i > 0 {
        let t = s.drop_first();
        assert forall|j: int| 0 <= j < i - 1 implies f(#[trigger] t[j]) by {
            assert(t[j] == s[j + 1]);
        }
        if i - 1 < t.len() {
            assert(t[i - 1] == s[i]);
        }
        lemma_lead_count(t, f, i - 1);
    }
}

pub proof fn lemma_trail_count(s: Seq<char>, f: spec_fn(char) -> bool, i: int)
    requires
        0 <= i <= s.len(),
        forall|j: int| s.len() - i <= j < s.len() ==> f(#[trigger] s[j]),
        i == s.len() || !f(s[s.len() - i - 1]),
    ensures
        trail_count(s, f) == i,
    decreases i,
{
    if i > 0 {
        let t = s.drop_last();
        assert forall|j: int| t.len() - (i - 1) <= j < t.len() implies f(#[trigger] t[j]) by {
            assert(t[j] == s[j]);
        }
        if i - 1 < t.len() {
            assert(t[t.len() - (i - 1) - 1] == s[s.len() - i - 1]);
        }
        lemma_trail_count(t, f, i - 1);
    }
}

/// `v[lo..hi]` is what `trim_by` leaves of `v`.
pub proof fn lemma_trim_bounds(v: Seq<char>, f: spec_fn(char) -> bool, lo: int, hi: int)
    requires
        0 <= lo <= hi <= v.len(),
        forall|j: int| 0 <= j < lo ==> f(#[trigger] v[j]),
        lo == v.len() || !f(v[lo]),
        forall|j: int| hi <= j < v.len() ==> f(#[trigger] v[j]),
        hi == lo || !f(v[hi - 1]),
    ensures
        trim_by(v, f) == v.subrange(lo, hi),
{
    lemma_lead_count(v, f, lo);
    let t = v.subrange(lo, v.len() as int);
    let k = v.len() - hi;
    assert forall|j: int| t.len() - k <= j < t.len() implies f(#[trigger] t[j]) by {
        assert(t[j] == v[j + lo]);
    }
    if k < t.len() {
        assert(t[t.len() - k - 1] == v[hi - 1]);
    }
    lemma_trail_count(t, f, k);
    assert(t.subrange(0, t.len() - trail_count(t, f)) == v.subrange(lo, hi));
}

pub fn is_whitespace(c: char) -> (r: bool)
    ensures
        r == is_ws(c),
{
    ('\u{9}' <= c && c <= '\u{d}') || c == ' ' || c == '\u{85}' || c == '\u{a0}' || c
        == '\u{1680}' || ('\u{2000}' <= c && c <= '\u{200a}') || c == '\u{2028}' || c
        == '\u{2029}' || c == '\u{202f}' || c == '\u{205f}' || c == '\u{3000}'
}

/// The characters of `s`, in order.
pub fn chars_of(s: &str) -> (r: Vec<char>)
    ensures
        r@ == s@,
{
    let mut v: Vec<char> = Vec::new();
    for c in it: s.chars()
        invariant
            v@ == it.seq().take(it.index() as int),
    {
        v.push(c);
    }
    v
}

/// Relies on `String::push`: appends one character.
#[verifier::external_body]
pub(crate) fn push_char(s: &mut String, c: char)
    ensures
        final(s)@ == old(s)@.push(c),
{
    s.push(c)
}

/// The string made of `v[lo..hi]`.
pub fn string_of(v: &Vec<char>, lo: usize, hi: usize) -> (r: String)
    requires
        lo <= hi <= v.len(),
    ensures
        r@ == v@.subrange(lo as int, hi as int),
{
    let mut s = String::new();
    let mut i: usize = lo;
    while i < hi
        invariant
            lo <= i <= hi <= v.len(),
            s@ == v@.subrange(lo as int, i as int),
        decreases hi - i,
    {
        push_char(&mut s, v[i]);
        assert(v@.subrange(lo as int, i + 1) == v@.subrange(lo as int, i as int).push(v@[i as int]));
        i = i + 1;
    }
    s
}

/// Index of the first character of `v` that is not whitespace.
pub fn skip_ws(v: &Vec<char>) -> (r: usize)
    ensures
        r == lead_ws(v@),
        r <= v.len(),
{
    let mut i: usize = 0;
    while i < v.len() && is_whitespace(v[i])
        invariant
            i <= v.len(),
            forall|j: int| 0 <= j < i ==> ws_pred()(#[trigger] v@[j]),
        decreases v.len() - i,
    {
        i = i + 1;
    }
    proof {
        lemma_lead_count(v@, ws_pred(), i as int);
    }
    i
}

/// Whether every character of `v` is whitespace.
pub fn is_blank(v: &Vec<char>) -> (r: bool)
    ensures
        r == all_ws(v@),
{
    let i = skip_ws(v);
    proof {
        lemma_lead_ws_stops(v@);
    }
    i == v.len()
}

pub proof fn lemma_lead_ws_stops(s: Seq<char>)
    ensures
        lead_ws(s) <= s.len(),
        forall|j: int| 0 <= j < lead_ws(s) ==> is_ws(#[trigger] s[j]),
        lead_ws(s) < s.len() ==> !is_ws(s[lead_ws(s) as int]),
{
    lemma_lead_count_stops(s, ws_pred());
}

pub proof fn lemma_lead_count_stops(s: Seq<char>, f: spec_fn(char) -> bool)
    ensures
        lead_count(s, f) <= s.len(),
        forall|j: int| 0 <= j < lead_count(s, f) ==> f(#[trigger] s[j]),
        lead_count(s, f) < s.len() ==> !f(s[lead_count(s, f) as int]),
    decreases s.len(),
{
    if s.len() > 0 && f(s[0]) {
        let t = s.drop_first();
        lemma_lead_count_stops(t, f);
        assert forall|j: int| 0 <= j < lead_count(s, f) implies f(#[trigger] s[j]) by {
            if j > 0 {
                assert(s[j] == t[j - 1]);
            }
        }
        if lead_count(s, f) < s.len() {
            assert(s[lead_count(s, f) as int] == t[lead_count(t, f) as int]);
        }
    }
}

/// The characters of `v` with leading and trailing whitespace removed.
pub fn trimmed(v: &Vec<char>) -> (r: String)
    ensures
        r@ == trim(v@),
{
    let lo = skip_ws(v);
    let mut hi: usize = v.len();
    while hi > lo && is_whitespace(v[hi - 1])
        invariant
            lo <= hi <= v.len(),
            forall|j: int| hi <= j < v.len() ==> ws_pred()(#[trigger] v@[j]),
        decreases hi,
    {
        hi = hi - 1;
    }
    proof {
        lemma_lead_ws_stops(v@);
        lemma_trim_bounds(v@, ws_pred(), lo as int, hi as int);
    }
    string_of(v, lo, hi)
}

/// Whether `v[at..]` begins with `p`.
pub fn has_prefix_at(v: &Vec<char>, at: usize, p: &Vec<char>) -> (r: bool)
    requires
        at <= v.len(),
    ensures
        r == starts_with(v@.subrange(at as int, v.len() as int), p@),
{
    if p.len() > v.len() - at {
        return false;
    }
    let mut i: usize = 0;
    while i < p.len()
        invariant
            i <= p.len() <= v.len() - at,
            forall|j: int| 0 <= j < i ==> v@[at + j] == p@[j],
        decreases p.len() - i,
    {
        if v[at + i] != p[i] {
            assert(v@.subrange(at as int, v.len() as int).subrange(0, p.len() as int)[i as int]
                != p@[i as int]);
            return false;
        }
        i = i + 1;
    }
    assert(v@.subrange(at as int, v.len() as int).subrange(0, p.len() as int) == p@);
    true
}

} // verus!
