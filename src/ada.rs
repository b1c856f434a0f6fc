//! A toy parser for Ada-like text: it recognises a procedure declaration and
//! otherwise records whether there was any text at all.
use vstd::prelude::*;
use crate::text::{
    all_ws, chars_of, has_prefix_at, is_blank, is_whitespace, is_ws, lemma_trim_bounds, nonempty,
    string_of, trim_by,
};

verus! {

#[derive(Debug, PartialEq, Eq)]
pub enum NodeKind {
    Program,
    ProcedureDecl { name: String },
    Identifier { name: String },
    Literal { value: String },
    Unknown,
}

#[derive(Debug, PartialEq, Eq)]
pub struct AstNode {
    pub kind: NodeKind,
    pub children: Vec<AstNode>,
}

/// Whether a character is alphabetic or numeric in the Unicode sense.
pub uninterp spec fn alnum(c: char) -> bool;

/// Relies on `char::is_alphanumeric`: the Unicode `Alphabetic` or `Numeric`
/// property of the character; among ASCII characters these are exactly the
/// letters and digits.
#[verifier::external_body]
fn is_alnum(c: char) -> (r: bool)
    ensures
        r == alnum(c),
        c <= '\u{7f}' ==> (r <==> ('a' <= c <= 'z' || 'A' <= c <= 'Z' || '0' <= c <= '9')),
{
    c.is_alphanumeric()
}

pub open spec fn non_alnum_pred() -> spec_fn(char) -> bool {
    |c: char| !alnum(c)
}

/// `p` occurs somewhere in `s`.
pub open spec fn contains(s: Seq<char>, p: Seq<char>) -> bool {
    exists|i: int| 0 <= i && i + p.len() <= s.len() && #[trigger] s.subrange(i, i + p.len()) == p
}

/// The pieces of `s` between whitespace characters, empty ones included.
pub open spec fn split_ws(s: Seq<char>) -> Seq<Seq<char>>
    decreases s.len(),
{
    if s.len() == 0 {
        seq![Seq::empty()]
    } else {
        let rest = split_ws(s.drop_last());
        if is_ws(s.last()) {
            rest.push(Seq::empty())
        } else {
            rest.update(rest.len() - 1, rest.last().push(s.last()))
        }
    }
}

/// The whitespace-separated words of `s`.
pub open spec fn words(s: Seq<char>) -> Seq<Seq<char>> {
    split_ws(s).filter(|w: Seq<char>| nonempty(w))
}

/// The word that follows the first `procedure`, or `unnamed`.
pub open spec fn word_after(ws: Seq<Seq<char>>) -> Seq<char>
    decreases ws.len(),
{
    if ws.len() == 0 {
        "unnamed"@
    } else if ws[0] == "procedure"@ {
        if ws.len() > 1 {
            ws[1]
        } else {
            "unnamed"@
        }
    } else {
        word_after(ws.drop_first())
    }
}

/// The declared procedure's name: the word after `procedure` without the
/// characters at either end that are not alphanumeric.
pub open spec fn procedure_name(s: Seq<char>) -> Seq<char> {
    trim_by(word_after(words(s)), non_alnum_pred())
}

proof fn lemma_word_after(ws: Seq<Seq<char>>, i: int)
    requires
        0 <= i <= ws.len(),
        forall|j: int| 0 <= j < i ==> #[trigger] ws[j] != "procedure"@,
    ensures
        word_after(ws) == word_after(ws.subrange(i, ws.len() as int)),
    decreases i,
{
    if i > 0 {
        let t = ws.drop_first();
        assert forall|j: int| 0 <= j < i - 1 implies #[trigger] t[j] != "procedure"@ by {
            assert(t[j] == ws[j + 1]);
        }
        lemma_word_after(t, i - 1);
        assert(t.subrange(i - 1, t.len() as int) == ws.subrange(i, ws.len() as int));
    } else {
        assert(ws.subrange(0, ws.len() as int) == ws);
    }
}

fn contains_chars(cs: &Vec<char>, p: &Vec<char>) -> (r: bool)
    ensures
        r == contains(cs@, p@),
{
    let mut i: usize = 0;
    while i <= cs.len()
        invariant
            i <= cs.len(),
            forall|j: int|
                0 <= j < i && j + p@.len() <= cs@.len() ==> #[trigger] cs@.subrange(j, j + p@.len())
                    != p@,
        decreases cs.len() + 1 - i,
    {
        if has_prefix_at(cs, i, p) {
            assert(cs@.subrange(i as int, cs@.len() as int).subrange(0, p@.len() as int)
                == cs@.subrange(i as int, i + p@.len()));
            return true;
        }
        if p.len() <= cs.len() - i {
            assert(cs@.subrange(i as int, cs@.len() as int).subrange(0, p@.len() as int)
                == cs@.subrange(i as int, i + p@.len()));
        }
        if i == cs.len() {
            assert(forall|j: int|
                0 <= j <= i && j + p@.len() <= cs@.len() ==> #[trigger] cs@.subrange(j, j + p@.len())
                    != p@);
            return false;
        }
        i = i + 1;
    }
    false
}

/// The whitespace-separated words of `cs`, in order.
fn words_of(cs: &Vec<char>) -> (r: Vec<String>)
    ensures
        r@.map_values(|w: String| w@) == words(cs@),
{
    let mut items: Vec<String> = Vec::new();
    let mut start: usize = 0;
    let mut i: usize = 0;
    while i < cs.len()
        invariant
            start <= i <= cs.len(),
            split_ws(cs@.take(i as int)).len() >= 1,
            split_ws(cs@.take(i as int)).last() == cs@.subrange(start as int, i as int),
            items@.map_values(|w: String| w@) == split_ws(cs@.take(i as int)).drop_last().filter(
                |w: Seq<char>| nonempty(w),
            ),
        decreases cs.len() - i,
    {
        let ghost p = cs@.take(i as int);
        let ghost q = cs@.take(i + 1);
        assert(q.drop_last() == p);
        let ghost lp = split_ws(p);
        if is_whitespace(cs[i]) {
            reveal(Seq::filter);
            assert(split_ws(q).drop_last() == lp);
            if i > start {
                let piece = string_of(cs, start, i);
                items.push(piece);
                assert(items@.map_values(|w: String| w@) == items@.drop_last().map_values(
                    |w: String| w@,
                ).push(piece@));
            }
            start = i + 1;
        } else {
            assert(split_ws(q).drop_last() == lp.drop_last());
            assert(cs@.subrange(start as int, i + 1) == cs@.subrange(start as int, i as int).push(
                cs@[i as int],
            ));
        }
        i = i + 1;
    }
    assert(cs@.take(cs.len() as int) == cs@);
    reveal(Seq::filter);
    if cs.len() > start {
        let piece = string_of(cs, start, cs.len());
        items.push(piece);
        assert(items@.map_values(|w: String| w@) == items@.drop_last().map_values(|w: String| w@).push(
            piece@,
        ));
    }
    items
}

/// `v` without the characters at either end that are not alphanumeric.
fn trim_non_alnum(v: &Vec<char>) -> (r: String)
    ensures
        r@ == trim_by(v@, non_alnum_pred()),
{
    let mut lo: usize = 0;
    while lo < v.len() && !is_alnum(v[lo])
        invariant
            lo <= v.len(),
            forall|j: int| 0 <= j < lo ==> non_alnum_pred()(#[trigger] v@[j]),
        decreases v.len() - lo,
    {
        lo = lo + 1;
    }
    let mut hi: usize = v.len();
    while hi > lo && !is_alnum(v[hi - 1])
        invariant
            lo <= hi <= v.len(),
            forall|j: int| hi <= j < v.len() ==> non_alnum_pred()(#[trigger] v@[j]),
        decreases hi,
    {
        hi = hi - 1;
    }
    proof {
        lemma_trim_bounds(v@, non_alnum_pred(), lo as int, hi as int);
    }
    string_of(v, lo, hi)
}

/// The name declared after the first `procedure` word of `cs`.
fn find_procedure_name(cs: &Vec<char>) -> (r: String)
    ensures
        r@ == procedure_name(cs@),
{
    let ws = words_of(cs);
    let ghost wv = ws@.map_values(|w: String| w@);
    let keyword = String::from_str("procedure");
    let mut i: usize = 0;
    while i < ws.len() && !(ws[i] == keyword)
        invariant
            i <= ws.len(),
            wv == ws@.map_values(|w: String| w@),
            keyword@ == "procedure"@,
            forall|j: int| 0 <= j < i ==> #[trigger] wv[j] != "procedure"@,
        decreases ws.len() - i,
    {
        i = i + 1;
    }
    proof {
        lemma_word_after(wv, i as int);
    }
    let word = if ws.len() - i > 1 {
        ws[i + 1].clone()
    } else {
        String::from_str("unnamed")
    };
    trim_non_alnum(&chars_of(word.as_str()))
}

/// A `Program` node with one child: a `ProcedureDecl` (over an `Identifier`
/// of the same name) where the text contains `procedure`, else `Unknown` for
/// blank text, else a `Literal` with value `<text>`.
pub fn parse_ada_to_ast(source: &str) -> (r: AstNode)
    ensures
        r.kind == NodeKind::Program,
        r.children@.len() == 1,
        contains(source@, "procedure"@) ==> {
            let c = r.children@[0];
            &&& c.kind matches NodeKind::ProcedureDecl { name } && name@ == procedure_name(source@)
            &&& c.children@.len() == 1
            &&& c.children@[0].kind matches NodeKind::Identifier { name } && name@ == procedure_name(
                source@,
            )
            &&& c.children@[0].children@.len() == 0
        },
        !contains(source@, "procedure"@) && all_ws(source@) ==> r.children@[0].kind
            == NodeKind::Unknown && r.children@[0].children@.len() == 0,
        !contains(source@, "procedure"@) && !all_ws(source@) ==> {
            &&& r.children@[0].kind matches NodeKind::Literal { value } && value@ == "<text>"@
            &&& r.children@[0].children@.len() == 0
        },
{
    let cs = chars_of(source);
    let mut children: Vec<AstNode> = Vec::new();
    if contains_chars(&cs, &chars_of("procedure")) {
        let name = find_procedure_name(&cs);
        let ident = AstNode { kind: NodeKind::Identifier { name: name.clone() }, children: Vec::new() };
        let mut inner: Vec<AstNode> = Vec::new();
        inner.push(ident);
        children.push(AstNode { kind: NodeKind::ProcedureDecl { name }, children: inner });
    } else if is_blank(&cs) {
        children.push(AstNode { kind: NodeKind::Unknown, children: Vec::new() });
    } else {
        children.push(
            AstNode { kind: NodeKind::Literal { value: String::from_str("<text>") }, children: Vec::new() },
        );
    }
    AstNode { kind: NodeKind::Program, children }
}

} // verus!
