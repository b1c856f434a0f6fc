//! Line-by-line classification of source text into coarse token tags.
use vstd::prelude::*;
use crate::text::{all_ws, chars_of, has_prefix_at, skip_ws, starts_with, trim_start};
use crate::tracker::{pad_even, StagnationMap};

verus! {

#[derive(Clone, Copy, Debug, PartialEq, Eq, Structural)]
pub enum Token {
    Def,
    Class,
    Import,
    Stmt,
}

pub open spec fn tag_of(t: Token) -> Seq<char> {
    match t {
        Token::Def => "DEF"@,
        Token::Class => "CLASS"@,
        Token::Import => "IMPORT"@,
        Token::Stmt => "STMT"@,
    }
}

impl Token {
    /// The tag's name in upper case.
    pub fn tag(&self) -> (r: &'static str)
        ensures
            r@ == tag_of(*self),
    {
        match self {
            Token::Def => "DEF",
            Token::Class => "CLASS",
            Token::Import => "IMPORT",
            Token::Stmt => "STMT",
        }
    }
}

/// The pieces of `s` between occurrences of `sep` (one more than there are
/// separators).
pub open spec fn split_on(s: Seq<char>, sep: char) -> Seq<Seq<char>>
    decreases s.len(),
{
    if s.len() == 0 {
        seq![Seq::empty()]
    } else {
        let rest = split_on(s.drop_last(), sep);
        if s.last() == sep {
            rest.push(Seq::empty())
        } else {
            rest.update(rest.len() - 1, rest.last().push(s.last()))
        }
    }
}

pub proof fn lemma_split_on_nonempty(s: Seq<char>, sep: char)
    ensures
        split_on(s, sep).len() >= 1,
    decreases s.len(),
{
    if s.len() > 0 {
        lemma_split_on_nonempty(s.drop_last(), sep);
    }
}

/// The token of one line, if any.
pub open spec fn classify(line: Seq<char>) -> Option<Token> {
    let t = trim_start(line);
    if starts_with(t, "def "@) {
        Some(Token::Def)
    } else if starts_with(t, "class "@) {
        Some(Token::Class)
    } else if starts_with(t, "import "@) || starts_with(t, "from "@) {
        Some(Token::Import)
    } else if t.len() == 0 || t[0] == '#' {
        None
    } else {
        Some(Token::Stmt)
    }
}

pub open spec fn line_tokens(lines: Seq<Seq<char>>) -> Seq<Token>
    decreases lines.len(),
{
    if lines.len() == 0 {
        Seq::empty()
    } else {
        let t = line_tokens(lines.drop_last());
        match classify(lines.last()) {
            Some(k) => t.push(k),
            None => t,
        }
    }
}

/// The tokens of `s`, one per line that is neither blank nor a comment.
pub open spec fn tokens_of(s: Seq<char>) -> Seq<Token> {
    line_tokens(split_on(s, '\n'))
}

/// Tags joined by commas.
pub open spec fn join_tags(ts: Seq<Token>) -> Seq<char>
    decreases ts.len(),
{
    if ts.len() == 0 {
        Seq::empty()
    } else if ts.len() == 1 {
        tag_of(ts[0])
    } else {
        join_tags(ts.drop_last()) + ","@ + tag_of(ts.last())
    }
}

proof fn lemma_split_blank(s: Seq<char>, sep: char)
    requires
        all_ws(s),
    ensures
        forall|i: int| 0 <= i < split_on(s, sep).len() ==> all_ws(#[trigger] split_on(s, sep)[i]),
    decreases s.len(),
{
    if s.len() > 0 {
        let p = s.drop_last();
        assert forall|j: int| 0 <= j < p.len() implies crate::text::is_ws(#[trigger] p[j]) by {
            assert(p[j] == s[j]);
        }
        lemma_split_blank(p, sep);
        lemma_split_on_nonempty(p, sep);
        let rest = split_on(p, sep);
        if s.last() != sep {
            let l = rest.last().push(s.last());
            assert forall|j: int| 0 <= j < l.len() implies crate::text::is_ws(#[trigger] l[j]) by {
                if j < l.len() - 1 {
                    assert(all_ws(rest[rest.len() - 1]));
                }
            }
        }
    }
}

proof fn lemma_blank_lines(lines: Seq<Seq<char>>)
    requires
        forall|i: int| 0 <= i < lines.len() ==> all_ws(#[trigger] lines[i]),
    ensures
        line_tokens(lines).len() == 0,
    decreases lines.len(),
{
    if lines.len() > 0 {
        let l = lines.last();
        assert(all_ws(lines[lines.len() - 1]));
        crate::text::lemma_lead_count(l, crate::text::ws_pred(), l.len() as int);
        reveal_strlit("def ");
        reveal_strlit("class ");
        reveal_strlit("import ");
        reveal_strlit("from ");
        assert(classify(l) is None);
        lemma_blank_lines(lines.drop_last());
    }
}

/// Text made only of whitespace (the empty text included) has no tokens.
pub proof fn lemma_blank_text_has_no_tokens(s: Seq<char>)
    requires
        all_ws(s),
    ensures
        tokens_of(s).len() == 0,
{
    lemma_split_blank(s, '\n');
    lemma_blank_lines(split_on(s, '\n'));
}

/// Tokenizing depends on the text alone: equal texts give equal tokens.
pub proof fn lemma_tokenize_deterministic(s1: Seq<char>, s2: Seq<char>)
    requires
        s1 == s2,
    ensures
        tokens_of(s1) == tokens_of(s2),
{
}

fn classify_line(line: &Vec<char>) -> (r: Option<Token>)
    ensures
        r == classify(line@),
{
    let at = skip_ws(line);
    proof {
        crate::text::lemma_lead_ws_stops(line@);
    }
    if has_prefix_at(line, at, &chars_of("def ")) {
        Some(Token::Def)
    } else if has_prefix_at(line, at, &chars_of("class ")) {
        Some(Token::Class)
    } else if has_prefix_at(line, at, &chars_of("import ")) || has_prefix_at(
        line,
        at,
        &chars_of("from "),
    ) {
        Some(Token::Import)
    } else if at == line.len() || line[at] == '#' {
        None
    } else {
        Some(Token::Stmt)
    }
}

/// Classifies each line of `source` in order: `def ` gives `Def`, `class `
/// gives `Class`, `import ` or `from ` gives `Import` (after leading
/// whitespace), blank and `#` lines give nothing, any other line `Stmt`.
pub fn tokenize(source: &str) -> (r: Vec<Token>)
    ensures
        r@ == tokens_of(source@),
{
    let cs = chars_of(source);
    let mut tokens: Vec<Token> = Vec::new();
    let mut line: Vec<char> = Vec::new();
    let mut i: usize = 0;
    while i < cs.len()
        invariant
            i <= cs.len(),
            cs@ == source@,
            split_on(cs@.take(i as int), '\n').len() >= 1,
            tokens@ == line_tokens(split_on(cs@.take(i as int), '\n').drop_last()),
            line@ == split_on(cs@.take(i as int), '\n').last(),
        decreases cs.len() - i,
    {
        let c = cs[i];
        let ghost p = cs@.take(i as int);
        let ghost q = cs@.take(i + 1);
        assert(q.drop_last() == p);
        assert(q.last() == c);
        let ghost lp = split_on(p, '\n');
        if c == '\n' {
            let k = classify_line(&line);
            match k {
                Some(t) => tokens.push(t),
                None => {},
            }
            line = Vec::new();
            assert(split_on(q, '\n').drop_last() == lp);
        } else {
            line.push(c);
            assert(split_on(q, '\n').drop_last() == lp.drop_last());
        }
        i = i + 1;
    }
    assert(cs@.take(cs.len() as int) == cs@);
    let k = classify_line(&line);
    match k {
        Some(t) => tokens.push(t),
        None => {},
    }
    tokens
}

/// The tags of the tokens of `s` joined by commas and padded to even length
/// (empty when there are no tokens).
pub open spec fn tokens_text(s: Seq<char>) -> Seq<char> {
    pad_even(join_tags(tokens_of(s)))
}

/// The tags of `tokenize(source)` joined by commas and padded to even length;
/// empty when there are no tokens, as for blank text.
pub fn tokenize_even_checked(source: &str) -> (r: String)
    ensures
        r@ == tokens_text(source@),
{
    let mut tracker = StagnationMap::new();
    let tokens = tokenize(source);
    let mut joined = String::new();
    let mut i: usize = 0;
    while i < tokens.len()
        invariant
            i <= tokens.len(),
            joined@ == join_tags(tokens@.take(i as int)),
        decreases tokens.len() - i,
    {
        let ghost p = tokens@.take(i + 1);
        assert(p.drop_last() == tokens@.take(i as int));
        if i > 0 {
            joined.append(",");
        }
        joined.append(tokens[i].tag());
        i = i + 1;
    }
    assert(tokens@.take(tokens.len() as int) == tokens@);
    tracker.update("tokens_joined", joined.as_str())
}

} // verus!
