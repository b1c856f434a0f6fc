//! The flat syntax tree built from a token sequence, and its JSON form.
use vstd::prelude::*;
use crate::text::{chars_of, is_ws, lemma_trim_bounds, nonempty, string_of, trim, trimmed, ws_pred};
use crate::tokenizer::{join_tags, lemma_split_on_nonempty, split_on, tag_of, tokens_of, tokens_text, Token};
use crate::tracker::{decimal_of, decimal_string, lemma_pad_even, pad_even, StagnationMap};

verus! {

/// A node: its kind, a name (empty for the root) and its children in order.
#[derive(Debug)]
pub struct TreeNode {
    pub kind: String,
    pub name: String,
    pub children: Vec<TreeNode>,
}

/// `(kind, name)` of each child, in order.
pub open spec fn leaves_of(n: TreeNode) -> Seq<(Seq<char>, Seq<char>)> {
    n.children@.map_values(|c: TreeNode| (c.kind@, c.name@))
}

/// Each kind paired with the name `n<i>` of its position.
pub open spec fn numbered(kinds: Seq<Seq<char>>) -> Seq<(Seq<char>, Seq<char>)> {
    Seq::new(kinds.len(), |i: int| (kinds[i], "n"@ + decimal_of(i)))
}

pub open spec fn leaf_json(kind: Seq<char>, name: Seq<char>) -> Seq<char> {
    "{\"kind\":\""@ + kind + "\",\"name\":\""@ + name + "\"}"@
}

/// The leaves' JSON objects joined by commas.
pub open spec fn leaves_json(ls: Seq<(Seq<char>, Seq<char>)>) -> Seq<char>
    decreases ls.len(),
{
    if ls.len() == 0 {
        Seq::empty()
    } else if ls.len() == 1 {
        leaf_json(ls[0].0, ls[0].1)
    } else {
        leaves_json(ls.drop_last()) + ","@ + leaf_json(ls.last().0, ls.last().1)
    }
}

pub open spec fn node_json(kind: Seq<char>, ls: Seq<(Seq<char>, Seq<char>)>) -> Seq<char> {
    "{\"kind\":\""@ + kind + "\",\"children\":["@ + leaves_json(ls) + "]}"@
}

/// A `Program` root over one childless node per kind, named by position.
pub open spec fn is_program_of(n: TreeNode, kinds: Seq<Seq<char>>) -> bool {
    &&& n.kind@ == "Program"@
    &&& n.name@.len() == 0
    &&& leaves_of(n) == numbered(kinds)
    &&& forall|i: int| 0 <= i < n.children@.len() ==> (#[trigger] n.children@[i]).children@.len() == 0
}

pub open spec fn tags_of(ts: Seq<Token>) -> Seq<Seq<char>> {
    ts.map_values(|t: Token| tag_of(t))
}

fn program_of(kinds: &Vec<String>) -> (r: TreeNode)
    ensures
        is_program_of(r, kinds@.map_values(|k: String| k@)),
{
    let ghost ks = kinds@.map_values(|k: String| k@);
    let mut children: Vec<TreeNode> = Vec::new();
    let mut i: usize = 0;
    while i < kinds.len()
        invariant
            i <= kinds.len(),
            ks == kinds@.map_values(|k: String| k@),
            children@.len() == i,
            forall|j: int|
                0 <= j < i ==> (#[trigger] children@[j]).kind@ == ks[j] && children@[j].name@ == "n"@
                    + decimal_of(j) && children@[j].children@.len() == 0,
        decreases kinds.len() - i,
    {
        let mut name = String::from_str("n");
        let digits = decimal_string(i as i128);
        name.append(digits.as_str());
        children.push(TreeNode { kind: kinds[i].clone(), name, children: Vec::new() });
        i = i + 1;
    }
    let r = TreeNode { kind: String::from_str("Program"), name: String::new(), children };
    assert(leaves_of(r) == numbered(ks));
    r
}

/// A `Program` root with one childless node per token, of the token's tag and
/// named `n<i>` after its index.
pub fn build(tokens: &Vec<Token>) -> (r: TreeNode)
    ensures
        is_program_of(r, tags_of(tokens@)),
{
    let mut kinds: Vec<String> = Vec::new();
    let mut i: usize = 0;
    while i < tokens.len()
        invariant
            i <= tokens.len(),
            kinds@.len() == i,
            forall|j: int| 0 <= j < i ==> (#[trigger] kinds@[j])@ == tag_of(tokens@[j]),
        decreases tokens.len() - i,
    {
        kinds.push(String::from_str(tokens[i].tag()));
        i = i + 1;
    }
    assert(kinds@.map_values(|k: String| k@) == tags_of(tokens@));
    program_of(&kinds)
}

impl TreeNode {
    /// `{"kind":K,"children":[...]}` with one `{"kind":k,"name":n}` per child.
    pub fn to_json(&self) -> (r: String)
        ensures
            r@ == node_json(self.kind@, leaves_of(*self)),
    {
        let ghost ls = leaves_of(*self);
        let mut body = String::new();
        let mut i: usize = 0;
        while i < self.children.len()
            invariant
                i <= self.children.len(),
                ls == leaves_of(*self),
                body@ == leaves_json(ls.take(i as int)),
            decreases self.children.len() - i,
        {
            let ghost p = ls.take(i + 1);
            assert(p.drop_last() == ls.take(i as int));
            if i > 0 {
                body.append(",");
            }
            body.append("{\"kind\":\"");
            body.append(self.children[i].kind.as_str());
            body.append("\",\"name\":\"");
            body.append(self.children[i].name.as_str());
            body.append("\"}");
            i = i + 1;
        }
        assert(ls.take(ls.len() as int) == ls);
        let mut out = String::from_str("{\"kind\":\"");
        out.append(self.kind.as_str());
        out.append("\",\"children\":[");
        out.append(body.as_str());
        out.append("]}");
        out
    }
}

/// The non-empty pieces of a comma-separated list.
pub open spec fn comma_items(s: Seq<char>) -> Seq<Seq<char>> {
    split_on(s, ',').filter(|p: Seq<char>| nonempty(p))
}

/// The items of a comma-separated list, once the whitespace around the whole
/// list (such as its padding) is removed.
pub open spec fn list_items(s: Seq<char>) -> Seq<Seq<char>> {
    comma_items(trim(s))
}

/// The empty program, `{"kind":"Program","children":[]}`.
pub open spec fn empty_program_json() -> Seq<char> {
    node_json("Program"@, Seq::empty())
}

fn empty_program() -> (r: TreeNode)
    ensures
        is_program_of(r, Seq::empty()),
{
    let r = TreeNode { kind: String::from_str("Program"), name: String::new(), children: Vec::new() };
    assert(leaves_of(r) == numbered(Seq::empty()));
    r
}

/// The non-empty comma-separated items of `s`, in order.
fn split_items(s: &str) -> (r: Vec<String>)
    ensures
        r@.map_values(|k: String| k@) == comma_items(s@),
{
    let cs = chars_of(s);
    let mut items: Vec<String> = Vec::new();
    let mut start: usize = 0;
    let mut i: usize = 0;
    while i < cs.len()
        invariant
            start <= i <= cs.len(),
            cs@ == s@,
            split_on(cs@.take(i as int), ',').len() >= 1,
            split_on(cs@.take(i as int), ',').last() == cs@.subrange(start as int, i as int),
            items@.map_values(|k: String| k@) == split_on(cs@.take(i as int), ',').drop_last().filter(
                |p: Seq<char>| nonempty(p),
            ),
        decreases cs.len() - i,
    {
        let ghost p = cs@.take(i as int);
        let ghost q = cs@.take(i + 1);
        assert(q.drop_last() == p);
        let ghost lp = split_on(p, ',');
        if cs[i] == ',' {
            reveal(Seq::filter);
            assert(split_on(q, ',').drop_last() == lp);
            if i > start {
                let piece = string_of(&cs, start, i);
                items.push(piece);
                assert(items@.map_values(|k: String| k@) == items@.drop_last().map_values(
                    |k: String| k@,
                ).push(piece@));
            }
            start = i + 1;
        } else {
            assert(split_on(q, ',').drop_last() == lp.drop_last());
            assert(cs@.subrange(start as int, i + 1) == cs@.subrange(start as int, i as int).push(
                cs@[i as int],
            ));
        }
        i = i + 1;
    }
    assert(cs@.take(cs.len() as int) == cs@);
    reveal(Seq::filter);
    if cs.len() > start {
        let piece = string_of(&cs, start, cs.len());
        items.push(piece);
        assert(items@.map_values(|k: String| k@) == items@.drop_last().map_values(|k: String| k@).push(
            piece@,
        ));
    }
    items
}

/// The JSON of a `Program` over the non-empty comma-separated kinds of
/// `tokens` (surrounding whitespace removed), padded to even length.
pub fn build_ast_from_tokens(tokens: &str) -> (r: String)
    ensures
        r@ == pad_even(node_json("Program"@, numbered(list_items(tokens@)))),
{
    let mut tracker = StagnationMap::new();
    let list = trimmed(&chars_of(tokens));
    let items = split_items(list.as_str());
    let json = program_of(&items).to_json();
    tracker.update("ast_built", json.as_str())
}

proof fn lemma_split_append(u: Seq<char>, t: Seq<char>, sep: char)
    requires
        forall|i: int| 0 <= i < t.len() ==> t[i] != sep,
    ensures
        split_on(u + t, sep) == split_on(u, sep).update(
            split_on(u, sep).len() - 1,
            split_on(u, sep).last() + t,
        ),
    decreases t.len(),
{
    lemma_split_on_nonempty(u, sep);
    let su = split_on(u, sep);
    if t.len() == 0 {
        assert(u + t == u);
        assert(su.last() + t == su.last());
        assert(su.update(su.len() - 1, su.last()) =~= su);
    } else {
        let t0 = t.drop_last();
        lemma_split_append(u, t0, sep);
        assert((u + t).drop_last() == u + t0);
        assert((u + t).last() == t.last());
        assert((su.last() + t0).push(t.last()) == su.last() + t);
        let r = split_on(u + t0, sep);
        assert(r.update(r.len() - 1, r.last().push(t.last())) =~= su.update(
            su.len() - 1,
            su.last() + t,
        ));
    }
}

proof fn lemma_tag(t: Token)
    ensures
        tag_of(t).len() > 0,
        forall|i: int| 0 <= i < tag_of(t).len() ==> #[trigger] tag_of(t)[i] != ',' && !is_ws(tag_of(t)[i]),
{
    reveal_strlit("DEF");
    reveal_strlit("CLASS");
    reveal_strlit("IMPORT");
    reveal_strlit("STMT");
}

proof fn lemma_join_chars(ts: Seq<Token>)
    ensures
        forall|i: int| 0 <= i < join_tags(ts).len() ==> !is_ws(#[trigger] join_tags(ts)[i]),
        ts.len() > 0 ==> join_tags(ts).len() > 0,
    decreases ts.len(),
{
    reveal_strlit(",");
    if ts.len() == 1 {
        lemma_tag(ts[0]);
    } else if ts.len() > 1 {
        lemma_join_chars(ts.drop_last());
        lemma_tag(ts.last());
        let j = join_tags(ts.drop_last());
        let t = tag_of(ts.last());
        assert forall|i: int| 0 <= i < join_tags(ts).len() implies !is_ws(#[trigger] join_tags(ts)[i]) by {
            if i < j.len() {
                assert(join_tags(ts)[i] == j[i]);
            } else if i > j.len() {
                assert(join_tags(ts)[i] == t[i - j.len() - 1]);
            }
        }
    }
}

proof fn lemma_split_join(ts: Seq<Token>)
    requires
        ts.len() > 0,
    ensures
        split_on(join_tags(ts), ',') == tags_of(ts),
    decreases ts.len(),
{
    reveal_strlit(",");
    let t = tag_of(ts.last());
    lemma_tag(ts.last());
    if ts.len() == 1 {
        let e = Seq::<char>::empty();
        lemma_split_append(e, t, ',');
        assert(e + t == t);
        assert(split_on(e, ',') =~= seq![e]);
        assert(split_on(e, ',').update(0, e + t) =~= tags_of(ts));
    } else {
        let j = join_tags(ts.drop_last());
        lemma_split_join(ts.drop_last());
        let u = j + ","@;
        assert(u.drop_last() == j);
        lemma_split_on_nonempty(j, ',');
        lemma_split_append(u, t, ',');
        assert(j + ","@ + t == u + t);
        assert(split_on(u, ',') == split_on(j, ',').push(Seq::empty()));
        assert(Seq::<char>::empty() + t == t);
        assert(split_on(j, ',').push(Seq::empty()).update(split_on(j, ',').len() as int, t)
            =~= tags_of(ts));
    }
}

proof fn lemma_filter_nonempty(xs: Seq<Seq<char>>)
    requires
        forall|i: int| 0 <= i < xs.len() ==> nonempty(#[trigger] xs[i]),
    ensures
        xs.filter(|p: Seq<char>| nonempty(p)) == xs,
    decreases xs.len(),
{
    reveal(Seq::filter);
    if xs.len() > 0 {
        lemma_filter_nonempty(xs.drop_last());
        assert(xs.drop_last().push(xs.last()) == xs);
    }
}

/// The builder reads the tokenizer's output back as exactly the token tags:
/// `build_ast_from_tokens(tokenize_even_checked(s))` has one child per token
/// of `s`, of that token's tag.
pub proof fn lemma_builder_reads_tokenizer_output(s: Seq<char>)
    ensures
        list_items(tokens_text(s)) == tags_of(tokens_of(s)),
{
    let ts = tokens_of(s);
    let j = join_tags(ts);
    lemma_join_chars(ts);
    let p = pad_even(j);
    if j.len() > 0 {
        lemma_trim_bounds(p, ws_pred(), 0, j.len() as int);
    } else {
        lemma_trim_bounds(p, ws_pred(), 0, 0);
    }
    assert(p.subrange(0, j.len() as int) == j);
    if ts.len() > 0 {
        lemma_split_join(ts);
        let tags = tags_of(ts);
        assert forall|i: int| 0 <= i < tags.len() implies nonempty(#[trigger] tags[i]) by {
            lemma_tag(ts[i]);
        }
        lemma_filter_nonempty(tags);
    } else {
        reveal(Seq::filter);
        assert(split_on(j, ',') =~= seq![Seq::<char>::empty()]);
        let sp = split_on(j, ',');
        assert(sp.drop_last().filter(|p: Seq<char>| nonempty(p)) =~= Seq::<Seq<char>>::empty());
        assert(tags_of(ts) =~= Seq::<Seq<char>>::empty());
    }
}

/// The local fallback result: the empty program, padded to even length.
pub fn rust_inline_parse(_source: &str) -> (r: String)
    ensures
        r@ == pad_even(empty_program_json()),
{
    let mut tracker = StagnationMap::new();
    let json = empty_program().to_json();
    tracker.update("fallback_res", json.as_str())
}

} // verus!
