//! The renderer: a flat list of document nodes to CSS text.
use vstd::prelude::*;
use crate::model::{ASTNode, NodeView};
use crate::text::{words, join, chars_of, string_from, words_chars, same_chars, slice_chars};

verus! {

/// The value bound to `name` by the last of `decls` that declares it.
pub open spec fn lookup_var(decls: Seq<(Seq<char>, Seq<char>)>, name: Seq<char>) -> Option<Seq<char>>
    decreases decls.len(),
{
    if decls.len() == 0 {
        None
    } else if decls.last().0 == name {
        Some(decls.last().1)
    } else {
        lookup_var(decls.drop_last(), name)
    }
}

/// The variable declarations among the first `n` nodes, in order.
pub open spec fn decls_before(nodes: Seq<NodeView>, n: nat) -> Seq<(Seq<char>, Seq<char>)>
    decreases n,
{
    if n == 0 {
        seq![]
    } else {
        match nodes[n - 1] {
            NodeView::Variable(name, value) => decls_before(nodes, (n - 1) as nat).push((name, value)),
            NodeView::Rule(_, _) => decls_before(nodes, (n - 1) as nat),
        }
    }
}

/// A token as rendered: a bound variable gives its value, anything else
/// stays as it is.
pub open spec fn resolve(tok: Seq<char>, decls: Seq<(Seq<char>, Seq<char>)>) -> Seq<char> {
    if tok.len() > 0 && tok[0] == '@' {
        match lookup_var(decls, tok) {
            Some(v) => v,
            None => tok,
        }
    } else {
        tok
    }
}

/// A property value split into its whitespace-separated tokens, each token
/// resolved, joined again with single spaces.
pub open spec fn substitute(value: Seq<char>, decls: Seq<(Seq<char>, Seq<char>)>) -> Seq<char> {
    join(words(value).map_values(|t: Seq<char>| resolve(t, decls)), seq![' '])
}

/// The line of one property: `  name: value;`.
pub open spec fn property_line(name: Seq<char>, value: Seq<char>, decls: Seq<(Seq<char>, Seq<char>)>) -> Seq<char> {
    seq![' ', ' '] + name + seq![':', ' '] + substitute(value, decls) + seq![';', '\n']
}

/// The lines of the first `n` properties.
pub open spec fn property_lines(
    props: Seq<(Seq<char>, Seq<char>)>,
    decls: Seq<(Seq<char>, Seq<char>)>,
    n: nat,
) -> Seq<char>
    decreases n,
{
    if n == 0 {
        seq![]
    } else {
        property_lines(props, decls, (n - 1) as nat) + property_line(
            props[n - 1].0,
            props[n - 1].1,
            decls,
        )
    }
}

/// The block of one rule: its path joined with spaces, then its properties.
pub open spec fn rule_block(
    path: Seq<Seq<char>>,
    props: Seq<(Seq<char>, Seq<char>)>,
    decls: Seq<(Seq<char>, Seq<char>)>,
) -> Seq<char> {
    join(path, seq![' ']) + seq![' ', '{', '\n'] + property_lines(props, decls, props.len()) + seq![
        '}',
        '\n',
    ]
}

/// The text of the first `n` nodes: a block for each rule, with the
/// variables declared before it.
pub open spec fn render_upto(nodes: Seq<NodeView>, n: nat) -> Seq<char>
    decreases n,
{
    if n == 0 {
        seq![]
    } else {
        render_upto(nodes, (n - 1) as nat) + match nodes[n - 1] {
            NodeView::Variable(_, _) => Seq::<char>::empty(),
            NodeView::Rule(path, props) => rule_block(path, props, decls_before(nodes, (n - 1) as nat)),
        }
    }
}

pub open spec fn render(nodes: Seq<NodeView>) -> Seq<char> {
    render_upto(nodes, nodes.len())
}

/// Rendering is a function of the nodes alone: two documents with the same
/// nodes render to the same text, however often they are rendered.
pub proof fn lemma_render_deterministic(a: Seq<NodeView>, b: Seq<NodeView>)
    requires
        a == b,
    ensures
        render(a) == render(b),
{
}

proof fn lemma_lookup_var_at(decls: Seq<(Seq<char>, Seq<char>)>, name: Seq<char>, j: int)
    requires
        -1 <= j < decls.len(),
        forall|m: int| j < m < decls.len() ==> (#[trigger] decls[m]).0 != name,
        j >= 0 ==> decls[j].0 == name,
    ensures
        j >= 0 ==> lookup_var(decls, name) == Some(decls[j].1),
        j < 0 ==> lookup_var(decls, name) is None,
    decreases decls.len(),
{
    if decls.len() > 0 && j < decls.len() - 1 {
        let rest = decls.drop_last();
        assert forall|m: int| j < m < rest.len() implies (#[trigger] rest[m]).0 != name by {
            assert(rest[m] == decls[m]);
        }
        lemma_lookup_var_at(rest, name, j);
    }
}

spec fn pairs_view(v: Seq<(Vec<char>, Vec<char>)>) -> Seq<(Seq<char>, Seq<char>)> {
    v.map_values(|p: (Vec<char>, Vec<char>)| (p.0@, p.1@))
}

fn push_all(out: &mut Vec<char>, s: &Vec<char>)
    ensures
        final(out)@ == old(out)@ + s@,
{
    let mut i: usize = 0;
    while i < s.len()
        invariant
            i <= s.len(),
            out@ == old(out)@ + s@.subrange(0, i as int),
        decreases s.len() - i,
    {
        out.push(s[i]);
        i += 1;
        assert(out@ =~= old(out)@ + s@.subrange(0, i as int));
    }
    assert(s@.subrange(0, i as int) =~= s@);
}

fn resolve_token(tok: &Vec<char>, decls: &Vec<(Vec<char>, Vec<char>)>) -> (r: Vec<char>)
    ensures
        r@ == resolve(tok@, pairs_view(decls@)),
{
    if tok.len() == 0 || tok[0] != '@' {
        return tok.clone();
    }
    let ghost d = pairs_view(decls@);
    let mut j: usize = decls.len();
    while j > 0
        invariant
            j <= decls.len(),
            d == pairs_view(decls@),
            tok@.len() > 0 && tok@[0] == '@',
            forall|m: int| j <= m < decls.len() ==> (#[trigger] d[m]).0 != tok@,
        decreases j,
    {
        assert(d[j - 1] == (decls@[j - 1].0@, decls@[j - 1].1@));
        if same_chars(&decls[j - 1].0, tok) {
            proof {
                lemma_lookup_var_at(d, tok@, j - 1);
                assert(decls@[j - 1].1@.subrange(0, decls@[j - 1].1@.len() as int) =~= decls@[j
                    - 1].1@);
            }
            return slice_chars(&decls[j - 1].1, 0, decls[j - 1].1.len());
        }
        j -= 1;
    }
    proof {
        lemma_lookup_var_at(d, tok@, -1);
    }
    tok.clone()
}

/// `parts` joined with `sep` between each two.
fn join_chars(parts: &Vec<Vec<char>>, sep: char) -> (r: Vec<char>)
    ensures
        r@ == join(parts.deep_view(), seq![sep]),
{
    let mut out: Vec<char> = Vec::new();
    if parts.len() == 0 {
        return out;
    }
    push_all(&mut out, &parts[0]);
    assert(parts[0].deep_view() =~= parts[0]@);
    assert(parts.deep_view().subrange(0, 1) =~= seq![parts[0]@]);
    let mut i: usize = 1;
    while i < parts.len()
        invariant
            1 <= i <= parts.len(),
            out@ == join(parts.deep_view().subrange(0, i as int), seq![sep]),
        decreases parts.len() - i,
    {
        out.push(sep);
        push_all(&mut out, &parts[i]);
        assert(parts.deep_view().subrange(0, i + 1).drop_last() =~= parts.deep_view().subrange(0, i as int));
        assert(parts[i as int].deep_view() =~= parts[i as int]@);
        i += 1;
    }
    assert(parts.deep_view().subrange(0, i as int) =~= parts.deep_view());
    out
}

fn substitute_chars(value: &Vec<char>, decls: &Vec<(Vec<char>, Vec<char>)>) -> (r: Vec<char>)
    ensures
        r@ == substitute(value@, pairs_view(decls@)),
{
    let toks = words_chars(value);
    let ghost d = pairs_view(decls@);
    let mut out: Vec<Vec<char>> = Vec::new();
    let mut i: usize = 0;
    while i < toks.len()
        invariant
            i <= toks.len(),
            d == pairs_view(decls@),
            toks.deep_view() == words(value@),
            out.deep_view() == words(value@).subrange(0, i as int).map_values(
                |t: Seq<char>| resolve(t, d),
            ),
        decreases toks.len() - i,
    {
        let t = resolve_token(&toks[i], decls);
        proof {
            assert(toks[i as int].deep_view() =~= toks[i as int]@);
            assert(t.deep_view() =~= t@);
        }
        let ghost o0 = out.deep_view();
        out.push(t);
        assert(out.deep_view() =~= o0.push(t@));
        i += 1;
        assert(out.deep_view() =~= words(value@).subrange(0, i as int).map_values(
            |t: Seq<char>| resolve(t, d),
        ));
    }
    assert(words(value@).subrange(0, i as int) =~= words(value@));
    join_chars(&out, ' ')
}

fn push_rule(
    out: &mut Vec<char>,
    path: &Vec<String>,
    props: &Vec<(String, String)>,
    decls: &Vec<(Vec<char>, Vec<char>)>,
)
    ensures
        final(out)@ == old(out)@ + rule_block(path.deep_view(), props.deep_view(), pairs_view(decls@)),
{
    let ghost d = pairs_view(decls@);
    let mut segs: Vec<Vec<char>> = Vec::new();
    let mut i: usize = 0;
    while i < path.len()
        invariant
            i <= path.len(),
            segs.deep_view() == path.deep_view().subrange(0, i as int),
        decreases path.len() - i,
    {
        let s = chars_of(path[i].as_str());
        proof {
            assert(s.deep_view() =~= s@);
        }
        let ghost s0 = segs.deep_view();
        segs.push(s);
        assert(segs.deep_view() =~= s0.push(s@));
        i += 1;
        assert(segs.deep_view() =~= path.deep_view().subrange(0, i as int));
    }
    assert(path.deep_view().subrange(0, i as int) =~= path.deep_view());
    let head = join_chars(&segs, ' ');
    push_all(out, &head);
    out.push(' ');
    out.push('{');
    out.push('\n');
    let ghost start = out@;
    let ghost pv = props.deep_view();
    let mut k: usize = 0;
    while k < props.len()
        invariant
            k <= props.len(),
            d == pairs_view(decls@),
            pv == props.deep_view(),
            out@ == start + property_lines(pv, d, k as nat),
        decreases props.len() - k,
    {
        let name = chars_of(props[k].0.as_str());
        let value = chars_of(props[k].1.as_str());
        let v = substitute_chars(&value, decls);
        let ghost o0 = out@;
        out.push(' ');
        out.push(' ');
        push_all(out, &name);
        out.push(':');
        out.push(' ');
        push_all(out, &v);
        out.push(';');
        out.push('\n');
        assert(out@ =~= o0 + property_line(pv[k as int].0, pv[k as int].1, d));
        k += 1;
    }
    out.push('}');
    out.push('\n');
    assert(out@ =~= old(out)@ + rule_block(path.deep_view(), props.deep_view(), d));
}

/// The CSS text of `ast`: one block per rule, in order, each property value
/// with its variable tokens replaced by the values declared before the rule.
pub fn generate_css(ast: &Vec<ASTNode>) -> (css: String)
    ensures
        css@ == render(ast.deep_view()),
{
    let ghost nv = ast.deep_view();
    let mut out: Vec<char> = Vec::new();
    let mut decls: Vec<(Vec<char>, Vec<char>)> = Vec::new();
    let mut i: usize = 0;
    assert(pairs_view(decls@) =~= decls_before(nv, 0));
    while i < ast.len()
        invariant
            i <= ast.len(),
            nv == ast.deep_view(),
            out@ == render_upto(nv, i as nat),
            pairs_view(decls@) == decls_before(nv, i as nat),
        decreases ast.len() - i,
    {
        let ghost o0 = out@;
        let ghost d0 = decls@;
        match &ast[i] {
            ASTNode::Variable(name, value) => {
                let n = chars_of(name.as_str());
                let v = chars_of(value.as_str());
                decls.push((n, v));
                assert(pairs_view(decls@) =~= pairs_view(d0).push((name@, value@)));
                assert(out@ =~= render_upto(nv, (i + 1) as nat));
            },
            ASTNode::Rule(path, props) => {
                push_rule(&mut out, path, props, &decls);
            },
        }
        i += 1;
    }
    string_from(&out)
}

} // verus!

verus! {

/// A variable resolves to the value of its last declaration.
pub proof fn lemma_last_declaration_wins(
    decls: Seq<(Seq<char>, Seq<char>)>,
    name: Seq<char>,
    value: Seq<char>,
)
    ensures
        lookup_var(decls.push((name, value)), name) == Some(value),
{
}

/// A rule sees only the variables declared before it: appending nodes after
/// it leaves its declarations, and the text rendered up to it, unchanged.
pub proof fn lemma_later_nodes_unseen(nodes: Seq<NodeView>, more: Seq<NodeView>, n: nat)
    requires
        n <= nodes.len(),
    ensures
        decls_before(nodes + more, n) == decls_before(nodes, n),
        render_upto(nodes + more, n) == render_upto(nodes, n),
    decreases n,
{
    if n > 0 {
        lemma_later_nodes_unseen(nodes, more, (n - 1) as nat);
        assert((nodes + more)[n - 1] == nodes[n - 1]);
    }
}

} // verus!
