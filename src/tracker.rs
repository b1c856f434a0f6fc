//! The stagnation tracker: a map from slot keys to their last written value,
//! which evolves a value that would be written unchanged.
use vstd::prelude::*;
use vstd::utf8::encode_utf8;
use crate::text::{chars_of, is_ws, lemma_trim_bounds, push_char, trim, trimmed, ws_pred};

verus! {

/// Length of `s` in UTF-8 bytes.
pub open spec fn byte_len(s: Seq<char>) -> nat {
    encode_utf8(s).len()
}

/// `s` padded with one trailing space when its UTF-8 byte length is odd.
pub open spec fn pad_even(s: Seq<char>) -> Seq<char> {
    if byte_len(s) % 2 == 1 {
        s.push(' ')
    } else {
        s
    }
}

pub proof fn lemma_encode_concat(a: Seq<char>, b: Seq<char>)
    ensures
        encode_utf8(a + b) == encode_utf8(a) + encode_utf8(b),
    decreases a.len(),
{
    if a.len() == 0 {
        assert(a + b == b);
    } else {
        lemma_encode_concat(a.drop_first(), b);
        assert((a + b).drop_first() == a.drop_first() + b);
        assert((a + b)[0] == a[0]);
    }
}

/// Padding gives an even byte length and changes nothing a second time.
pub proof fn lemma_pad_even(s: Seq<char>)
    ensures
        byte_len(pad_even(s)) % 2 == 0,
        pad_even(pad_even(s)) == pad_even(s),
{
    if byte_len(s) % 2 == 1 {
        lemma_encode_concat(s, seq![' ']);
        assert(s + seq![' '] == s.push(' '));
        let sp = seq![' '];
        assert(sp.drop_first() == Seq::<char>::empty());
        assert((' ' as u32) == 32u32);
        assert(vstd::utf8::has_width_1_encoding(sp[0] as u32));
        assert(encode_utf8(sp.drop_first()).len() == 0);
        assert(vstd::utf8::encode_scalar(sp[0] as u32).len() == 1);
        assert(encode_utf8(sp).len() == 1);
    }
}

pub open spec fn is_digit(c: char) -> bool {
    '0' <= c && c <= '9'
}

pub open spec fn digit_char(d: int) -> char {
    seq!['0', '1', '2', '3', '4', '5', '6', '7', '8', '9'][d]
}

/// Value of a string of decimal digits.
pub open spec fn digits_value(s: Seq<char>) -> int
    decreases s.len(),
{
    if s.len() == 0 {
        0
    } else {
        digits_value(s.drop_last()) * 10 + (s.last() as int - '0' as int)
    }
}

/// Decimal digits of a natural number, without leading zeros.
pub open spec fn digits_of(n: nat) -> Seq<char>
    decreases n,
{
    if n < 10 {
        seq![digit_char(n as int)]
    } else {
        digits_of(n / 10).push(digit_char((n % 10) as int))
    }
}

/// Decimal form of an integer, with a leading `-` when negative.
pub open spec fn decimal_of(n: int) -> Seq<char> {
    if n < 0 {
        seq!['-'] + digits_of((-n) as nat)
    } else {
        digits_of(n as nat)
    }
}

/// The `i128` that `s` spells: an optional `+` or `-`, then one or more ASCII
/// digits, with a value in the range of `i128`.
pub open spec fn parse_int(s: Seq<char>) -> Option<int> {
    let signed = s.len() > 0 && (s[0] == '-' || s[0] == '+');
    let body = if signed {
        s.drop_first()
    } else {
        s
    };
    let magnitude = digits_value(body);
    let v = if signed && s[0] == '-' {
        -magnitude
    } else {
        magnitude
    };
    if body.len() > 0 && (forall|i: int| 0 <= i < body.len() ==> is_digit(#[trigger] body[i]))
        && i128::MIN <= v <= i128::MAX {
        Some(v)
    } else {
        None
    }
}

/// Relies on `str::parse::<i128>`: `Ok` exactly for an optional sign followed by
/// ASCII digits whose value fits in `i128`.
#[verifier::external_body]
fn parse_i128(s: &str) -> (r: Option<i128>)
    ensures
        r matches Some(n) ==> parse_int(s@) == Some(n as int),
        r is None ==> parse_int(s@) is None,
{
    s.parse::<i128>().ok()
}

/// Relies on `i128::to_string`: the decimal form of the number.
#[verifier::external_body]
pub(crate) fn decimal_string(n: i128) -> (r: String)
    ensures
        r@ == decimal_of(n as int),
{
    n.to_string()
}

/// `s` padded to even length.
pub fn ensure_even(s: &str) -> (r: String)
    ensures
        r@ == pad_even(s@),
{
    let mut r = String::from_str(s);
    if s.as_bytes().len() % 2 == 1 {
        push_char(&mut r, ' ');
    }
    r
}

/// The value that replaces a stagnant (already even) value `v`.
pub open spec fn bump(v: Seq<char>) -> Seq<char> {
    match parse_int(trim(v)) {
        Some(n) => pad_even(decimal_of(n + 1)),
        None => pad_even(v.push(' ')),
    }
}

/// Writing `candidate` under `key` would repeat the value stored there.
pub open spec fn stagnant(m: Map<Seq<char>, Seq<char>>, key: Seq<char>, candidate: Seq<char>) -> bool {
    m.contains_key(key) && m[key] == pad_even(candidate)
}

/// The value that `update` stores and returns.
pub open spec fn evolved(m: Map<Seq<char>, Seq<char>>, key: Seq<char>, candidate: Seq<char>) -> Seq<char> {
    if stagnant(m, key, candidate) {
        bump(pad_even(candidate))
    } else {
        pad_even(candidate)
    }
}

/// The increment of a stagnant numeric value would leave `i128`.
pub open spec fn overflows(m: Map<Seq<char>, Seq<char>>, key: Seq<char>, candidate: Seq<char>) -> bool {
    stagnant(m, key, candidate) && parse_int(trim(pad_even(candidate))) == Some(i128::MAX as int)
}

proof fn lemma_digit_char(d: int)
    requires
        0 <= d < 10,
    ensures
        is_digit(digit_char(d)),
        digit_char(d) as int - '0' as int == d,
{
    let ds = seq!['0', '1', '2', '3', '4', '5', '6', '7', '8', '9'];
    assert(ds[0] == '0' && ds[1] == '1' && ds[2] == '2' && ds[3] == '3' && ds[4] == '4');
    assert(ds[5] == '5' && ds[6] == '6' && ds[7] == '7' && ds[8] == '8' && ds[9] == '9');
}

proof fn lemma_digits_of(n: nat)
    ensures
        digits_of(n).len() > 0,
        forall|i: int| 0 <= i < digits_of(n).len() ==> is_digit(#[trigger] digits_of(n)[i]),
        digits_value(digits_of(n)) == n,
    decreases n,
{
    let d = digits_of(n);
    if n < 10 {
        lemma_digit_char(n as int);
        assert(d.drop_last() == Seq::<char>::empty());
        assert(digits_value(d.drop_last()) == 0);
    } else {
        lemma_digits_of(n / 10);
        lemma_digit_char((n % 10) as int);
        assert(d.drop_last() == digits_of(n / 10));
        assert(d.last() == digit_char((n % 10) as int));
        assert((n / 10) * 10 + n % 10 == n) by (nonlinear_arith);
        assert forall|i: int| 0 <= i < d.len() implies is_digit(#[trigger] d[i]) by {
            if i < d.len() - 1 {
                assert(d[i] == digits_of(n / 10)[i]);
            }
        }
    }
}

/// Parsing the decimal form of an `i128` gives the number back.
proof fn lemma_parse_decimal(m: int)
    ensures
        parse_int(decimal_of(m)) == (if i128::MIN <= m <= i128::MAX {
            Some(m)
        } else {
            None::<int>
        }),
{
    if m < 0 {
        let k = (-m) as nat;
        lemma_digits_of(k);
        let s = decimal_of(m);
        assert(s.drop_first() == digits_of(k));
    } else {
        lemma_digits_of(m as nat);
    }
}

proof fn lemma_decimal_has_no_ws(m: int)
    ensures
        decimal_of(m).len() > 0,
        forall|i: int| 0 <= i < decimal_of(m).len() ==> !is_ws(#[trigger] decimal_of(m)[i]),
{
    if m < 0 {
        let k = (-m) as nat;
        lemma_digits_of(k);
        let s = decimal_of(m);
        assert forall|i: int| 0 <= i < s.len() implies !is_ws(#[trigger] s[i]) by {
            if i > 0 {
                assert(s[i] == digits_of(k)[i - 1]);
            }
        }
    } else {
        lemma_digits_of(m as nat);
    }
}

/// A stagnant value never evolves into itself.
proof fn lemma_bump_differs(v: Seq<char>)
    ensures
        bump(v) != v,
{
    match parse_int(trim(v)) {
        Some(n) => {
            let d = decimal_of(n + 1);
            if bump(v) == v {
                lemma_decimal_has_no_ws(n + 1);
                let p = pad_even(d);
                lemma_trim_bounds(p, ws_pred(), 0, d.len() as int);
                assert(p.subrange(0, d.len() as int) == d);
                lemma_parse_decimal(n + 1);
            }
        },
        None => {
            assert(bump(v).len() > v.len());
        },
    }
}

/// Writing one candidate twice in a row under one key gives two different
/// values: a slot never repeats itself.
pub proof fn lemma_repeated_write_evolves(
    m: Map<Seq<char>, Seq<char>>,
    key: Seq<char>,
    candidate: Seq<char>,
)
    ensures
        evolved(m.insert(key, evolved(m, key, candidate)), key, candidate) != evolved(
            m,
            key,
            candidate,
        ),
{
    lemma_bump_differs(pad_even(candidate));
}

/// Last written value of each slot key.
///
/// The entries live in a `Vec` whose keys are kept unique: Verus specifies
/// std's `HashMap` only for keys whose hashing it models, which `String` keys
/// are not, so a map keyed by strings could not be reasoned about.
pub struct StagnationMap {
    entries: Vec<(String, String)>,
    model: Ghost<Map<Seq<char>, Seq<char>>>,
}

impl View for StagnationMap {
    type V = Map<Seq<char>, Seq<char>>;

    closed spec fn view(&self) -> Map<Seq<char>, Seq<char>> {
        self.model@
    }
}

impl StagnationMap {
    pub closed spec fn wf(&self) -> bool {
        &&& forall|i: int|
            0 <= i < self.entries@.len() ==> #[trigger] self.model@.contains_key(
                self.entries@[i].0@,
            ) && self.model@[self.entries@[i].0@] == self.entries@[i].1@
        &&& forall|k: Seq<char>|
            #[trigger] self.model@.contains_key(k) ==> exists|i: int|
                0 <= i < self.entries@.len() && #[trigger] self.entries@[i].0@ == k
        &&& forall|i: int, j: int|
            0 <= i < self.entries@.len() && 0 <= j < self.entries@.len() && i != j
                ==> #[trigger] self.entries@[i].0@ != #[trigger] self.entries@[j].0@
    }

    /// An empty map.
    pub fn new() -> (r: StagnationMap)
        ensures
            r.wf(),
            r@ == Map::<Seq<char>, Seq<char>>::empty(),
    {
        StagnationMap { entries: Vec::new(), model: Ghost(Map::empty()) }
    }

    fn find(&self, key: &String) -> (r: Option<usize>)
        requires
            self.wf(),
        ensures
            match r {
                Some(i) => i < self.entries@.len() && self.entries@[i as int].0@ == key@,
                None => !self@.contains_key(key@),
            },
    {
        let mut i: usize = 0;
        while i < self.entries.len()
            invariant
                self.wf(),
                i <= self.entries@.len(),
                forall|j: int| 0 <= j < i ==> self.entries@[j].0@ != key@,
            decreases self.entries@.len() - i,
        {
            if self.entries[i].0 == *key {
                return Some(i);
            }
            i = i + 1;
        }
        None
    }

    /// Normalizes `candidate` to even length; where that repeats the value last
    /// stored under `key`, evolves it: a number is incremented, anything else
    /// gets one more space, and the result is padded to even length again. The
    /// result is stored under `key` and returned.
    pub fn update(&mut self, key: &str, candidate: &str) -> (r: String)
        requires
            old(self).wf(),
            !overflows(old(self)@, key@, candidate@),
        ensures
            final(self).wf(),
            r@ == evolved(old(self)@, key@, candidate@),
            byte_len(r@) % 2 == 0,
            final(self)@ == old(self)@.insert(key@, r@),
    {
        let k = String::from_str(key);
        let v = ensure_even(candidate);
        proof {
            lemma_pad_even(candidate@);
        }
        let found = self.find(&k);
        let mut out = v.clone();
        let hit = match found {
            Some(i) => self.entries[i].1 == v,
            None => false,
        };
        proof {
            if let Some(i) = found {
                assert(self.model@.contains_key(self.entries@[i as int].0@));
            }
            assert(hit == stagnant(self@, key@, candidate@));
        }
        if hit {
            let t = trimmed(&chars_of(v.as_str()));
            match parse_i128(t.as_str()) {
                Some(n) => {
                    let s = decimal_string(n + 1);
                    out = ensure_even(s.as_str());
                    proof {
                        lemma_pad_even(s@);
                    }
                },
                None => {
                    let mut s = v.clone();
                    push_char(&mut s, ' ');
                    out = ensure_even(s.as_str());
                    proof {
                        lemma_pad_even(s@);
                    }
                },
            }
        }
        let ghost m = self.model@.insert(key@, out@);
        match found {
            Some(i) => {
                self.entries.set(i, (k, out.clone()));
            },
            None => {
                self.entries.push((k, out.clone()));
            },
        }
        let ghost old_entries = old(self).entries@;
        self.model = Ghost(m);
        assert(self.wf()) by {
            assert forall|j: int| 0 <= j < self.entries@.len() implies #[trigger] self.model@.contains_key(
                self.entries@[j].0@,
            ) && self.model@[self.entries@[j].0@] == self.entries@[j].1@ by {
                if j < old_entries.len() && self.entries@[j] == old_entries[j] {
                    assert(old(self).model@.contains_key(old_entries[j].0@));
                    match found {
                        Some(i) => assert(old_entries[i as int].0@ == key@),
                        None => {},
                    }
                }
            }
            assert forall|a: int, b: int|
                0 <= a < self.entries@.len() && 0 <= b < self.entries@.len() && a != b
                implies #[trigger] self.entries@[a].0@ != #[trigger] self.entries@[b].0@ by {
                match found {
                    Some(i) => {
                        assert(old_entries[i as int].0@ == key@);
                        assert(old_entries[a].0@ != old_entries[b].0@);
                    },
                    None => {
                        if a < old_entries.len() {
                            assert(old(self).model@.contains_key(old_entries[a].0@));
                        }
                        if b < old_entries.len() {
                            assert(old(self).model@.contains_key(old_entries[b].0@));
                        }
                    },
                }
            }
            assert forall|k2: Seq<char>| #[trigger] self.model@.contains_key(k2) implies exists|
                j: int,
            | 0 <= j < self.entries@.len() && #[trigger] self.entries@[j].0@ == k2 by {
                if k2 == key@ {
                    match found {
                        Some(i) => assert(self.entries@[i as int].0@ == k2),
                        None => assert(self.entries@[self.entries@.len() - 1].0@ == k2),
                    }
                } else {
                    let j = choose|j: int|
                        0 <= j < old(self).entries@.len() && #[trigger] old(self).entries@[j].0@
                            == k2;
                    assert(self.entries@[j].0@ == k2);
                }
            }
        }
        out
    }
}

} // verus!
