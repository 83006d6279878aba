//! The parser: source text to a flat list of document nodes.
use vstd::prelude::*;
use crate::model::{ASTNode, NodeView, Source, Document, ParseError};
use crate::text::{
    trim, split_on, starts_with, value_text, declared_text, declared_chars, chars_of, string_from, trim_chars, value_chars,
    split_chars, has_prefix, slice_chars, lemma_split_on_len, drop_trailing, strip_trailing,
};

verus! {

/// An open block: its own selector segment and the properties read so far.
pub struct FrameView {
    pub selector: Seq<char>,
    pub props: Seq<(Seq<char>, Seq<char>)>,
}

/// Where a parse stands between two lines.
pub struct ParseState {
    /// The open blocks, outermost first.
    pub frames: Seq<FrameView>,
    pub nodes: Seq<NodeView>,
    pub skipped: Seq<Seq<char>>,
}

pub open spec fn start_state() -> ParseState {
    ParseState { frames: seq![], nodes: seq![], skipped: seq![] }
}

/// The lines of `text`, each trimmed.
pub open spec fn lines_of(text: Seq<char>) -> Seq<Seq<char>> {
    split_on(text, '\n').map_values(|l: Seq<char>| trim(l))
}

pub open spec fn import_marker() -> Seq<char> {
    seq!['@', 'i', 'm', 'p', 'o', 'r', 't']
}

pub open spec fn is_import(l: Seq<char>) -> bool {
    starts_with(l, import_marker())
}

pub open spec fn is_quote_or_terminator(c: char) -> bool {
    c == '\'' || c == '"' || c == ';'
}

/// `s` without its quotes and terminators.
pub open spec fn unquote(s: Seq<char>) -> Seq<char>
    decreases s.len(),
{
    if s.len() == 0 {
        s
    } else if is_quote_or_terminator(s.last()) {
        unquote(s.drop_last())
    } else {
        unquote(s.drop_last()).push(s.last())
    }
}

/// The path that an import line names.
pub open spec fn import_path(l: Seq<char>) -> Seq<char> {
    unquote(trim(l.subrange(7, l.len() as int)))
}

pub open spec fn has_colon(l: Seq<char>) -> bool {
    split_on(l, ':').len() > 1
}

/// A variable declaration: the marker first and exactly one colon.
pub open spec fn is_declaration(l: Seq<char>) -> bool {
    l.len() > 0 && l[0] == '@' && split_on(l, ':').len() == 2
}

/// The text before the first colon, trimmed.
pub open spec fn pair_name(l: Seq<char>) -> Seq<char> {
    trim(split_on(l, ':')[0])
}

/// The text after the first colon.
pub open spec fn pair_rest(l: Seq<char>) -> Seq<char> {
    l.subrange(split_on(l, ':')[0].len() as int + 1, l.len() as int)
}

/// The value of a property line: the text after the first colon, trimmed,
/// without terminators, and trimmed again at the end.
pub open spec fn pair_value(l: Seq<char>) -> Seq<char> {
    value_text(pair_rest(l))
}

/// The value of a declaration line: the text after the colon, trimmed, then
/// without terminators.
pub open spec fn declared_value(l: Seq<char>) -> Seq<char> {
    declared_text(pair_rest(l))
}

pub open spec fn opens_block(l: Seq<char>) -> bool {
    l.len() > 0 && l.last() == '{'
}

/// The selector of a line that opens a block: the text before its
/// opening markers, trimmed.
pub open spec fn selector_of(l: Seq<char>) -> Seq<char> {
    trim(drop_trailing(l, '{'))
}

pub open spec fn closes_block(l: Seq<char>) -> bool {
    l == seq!['}']
}

/// `props` with `name` bound to `value`: in place where the name is
/// already there, else at the end.
pub open spec fn put(props: Seq<(Seq<char>, Seq<char>)>, name: Seq<char>, value: Seq<char>) -> Seq<
    (Seq<char>, Seq<char>),
>
    decreases props.len(),
{
    if props.len() == 0 {
        seq![(name, value)]
    } else if props[0].0 == name {
        seq![(name, value)] + props.drop_first()
    } else {
        seq![props[0]] + put(props.drop_first(), name, value)
    }
}

/// The text of the first source with this path.
pub open spec fn lookup_source(src: Seq<(Seq<char>, Seq<char>)>, path: Seq<char>) -> Option<
    Seq<char>,
>
    decreases src.len(),
{
    if src.len() == 0 {
        None
    } else if src[0].0 == path {
        Some(src[0].1)
    } else {
        lookup_source(src.drop_first(), path)
    }
}

/// An import is followed where its path names a source, is not among the
/// sources being imported already, and the import depth allows one more.
pub open spec fn follows(
    src: Seq<(Seq<char>, Seq<char>)>,
    depth: nat,
    active: Seq<Seq<char>>,
    path: Seq<char>,
) -> bool {
    depth > 0 && !active.contains(path) && lookup_source(src, path) is Some
}

/// The path of each open block, outermost first.
pub open spec fn path_of(frames: Seq<FrameView>) -> Seq<Seq<char>> {
    frames.map_values(|f: FrameView| f.selector)
}

/// The state after line `l`; `None` where an import ended inside a block.
pub open spec fn step(
    src: Seq<(Seq<char>, Seq<char>)>,
    depth: nat,
    active: Seq<Seq<char>>,
    st: ParseState,
    l: Seq<char>,
) -> Option<ParseState>
    decreases depth, 0nat,
{
    if l.len() == 0 {
        Some(st)
    } else if st.frames.len() == 0 {
        if is_import(l) {
            let p = import_path(l);
            if follows(src, depth, active, p) {
                match parse_doc(src, (depth - 1) as nat, active.push(p), lookup_source(src, p)->0) {
                    Some((ns, sk)) => Some(
                        ParseState { nodes: st.nodes + ns, skipped: st.skipped + sk, ..st },
                    ),
                    None => None,
                }
            } else {
                Some(ParseState { skipped: st.skipped.push(p), ..st })
            }
        } else if is_declaration(l) {
            Some(
                ParseState {
                    nodes: st.nodes.push(NodeView::Variable(pair_name(l), declared_value(l))),
                    ..st
                },
            )
        } else if opens_block(l) {
            Some(ParseState { frames: seq![FrameView { selector: selector_of(l), props: seq![] }], ..st })
        } else {
            Some(st)
        }
    } else if closes_block(l) {
        Some(
            ParseState {
                frames: st.frames.drop_last(),
                nodes: st.nodes.push(NodeView::Rule(path_of(st.frames), st.frames.last().props)),
                ..st
            },
        )
    } else if opens_block(l) {
        Some(
            ParseState {
                frames: st.frames.push(FrameView { selector: selector_of(l), props: seq![] }),
                ..st
            },
        )
    } else if has_colon(l) {
        let top = st.frames.last();
        Some(
            ParseState {
                frames: st.frames.update(
                    st.frames.len() - 1,
                    FrameView { props: put(top.props, pair_name(l), pair_value(l)), ..top },
                ),
                ..st
            },
        )
    } else {
        Some(st)
    }
}

/// The state after the first `n` lines.
pub open spec fn run(
    src: Seq<(Seq<char>, Seq<char>)>,
    depth: nat,
    active: Seq<Seq<char>>,
    lines: Seq<Seq<char>>,
    n: nat,
) -> Option<ParseState>
    decreases depth, n,
{
    if n == 0 {
        Some(start_state())
    } else {
        match run(src, depth, active, lines, (n - 1) as nat) {
            Some(st) => step(src, depth, active, st, lines[n - 1]),
            None => None,
        }
    }
}

/// The nodes of `text` and the imports skipped in it, or `None` where a block
/// of it, or of a source that it imports, is left open.
pub open spec fn parse_doc(
    src: Seq<(Seq<char>, Seq<char>)>,
    depth: nat,
    active: Seq<Seq<char>>,
    text: Seq<char>,
) -> Option<(Seq<NodeView>, Seq<Seq<char>>)>
    decreases depth, lines_of(text).len() + 1,
{
    match run(src, depth, active, lines_of(text), lines_of(text).len()) {
        Some(st) => if st.frames.len() == 0 {
            Some((st.nodes, st.skipped))
        } else {
            None
        },
        None => None,
    }
}

} // verus!

verus! {

proof fn lemma_put_at(props: Seq<(Seq<char>, Seq<char>)>, name: Seq<char>, value: Seq<char>, j: int)
    requires
        0 <= j < props.len(),
        props[j].0 == name,
        forall|m: int| 0 <= m < j ==> (#[trigger] props[m]).0 != name,
    ensures
        put(props, name, value) == props.update(j, (name, value)),
    decreases j,
{
    if j == 0 {
        assert(put(props, name, value) =~= props.update(j, (name, value)));
    } else {
        let rest = props.drop_first();
        assert forall|m: int| 0 <= m < j - 1 implies (#[trigger] rest[m]).0 != name by {
            assert(rest[m] == props[m + 1]);
        }
        lemma_put_at(rest, name, value, j - 1);
        assert(put(props, name, value) =~= props.update(j, (name, value)));
    }
}

proof fn lemma_put_new(props: Seq<(Seq<char>, Seq<char>)>, name: Seq<char>, value: Seq<char>)
    requires
        forall|m: int| 0 <= m < props.len() ==> (#[trigger] props[m]).0 != name,
    ensures
        put(props, name, value) == props.push((name, value)),
    decreases props.len(),
{
    if props.len() == 0 {
        assert(put(props, name, value) =~= props.push((name, value)));
    } else {
        let rest = props.drop_first();
        assert forall|m: int| 0 <= m < rest.len() implies (#[trigger] rest[m]).0 != name by {
            assert(rest[m] == props[m + 1]);
        }
        lemma_put_new(rest, name, value);
        assert(put(props, name, value) =~= props.push((name, value)));
    }
}

proof fn lemma_lookup_at(src: Seq<(Seq<char>, Seq<char>)>, path: Seq<char>, k: int)
    requires
        0 <= k <= src.len(),
        forall|m: int| 0 <= m < k ==> (#[trigger] src[m]).0 != path,
    ensures
        k < src.len() && src[k].0 == path ==> lookup_source(src, path) == Some(src[k].1),
        k == src.len() ==> lookup_source(src, path) is None,
    decreases k,
{
    if k > 0 {
        let rest = src.drop_first();
        assert forall|m: int| 0 <= m < k - 1 implies (#[trigger] rest[m]).0 != path by {
            assert(rest[m] == src[m + 1]);
        }
        lemma_lookup_at(rest, path, k - 1);
    }
}

proof fn lemma_run_stays_none(
    src: Seq<(Seq<char>, Seq<char>)>,
    depth: nat,
    active: Seq<Seq<char>>,
    lines: Seq<Seq<char>>,
    k: nat,
    n: nat,
)
    requires
        k <= n,
        run(src, depth, active, lines, k) is None,
    ensures
        run(src, depth, active, lines, n) is None,
    decreases n - k,
{
    if k < n {
        lemma_run_stays_none(src, depth, active, lines, k, (n - 1) as nat);
    }
}

/// An open block while parsing.
pub struct Frame {
    pub selector: String,
    pub props: Vec<(String, String)>,
}

impl DeepView for Frame {
    type V = FrameView;

    open spec fn deep_view(&self) -> FrameView {
        FrameView { selector: self.selector@, props: self.props.deep_view() }
    }
}

/// The parse state of one source while its lines are read.
pub struct Parser {
    pub frames: Vec<Frame>,
    pub nodes: Vec<ASTNode>,
    pub skipped: Vec<String>,
}

impl DeepView for Parser {
    type V = ParseState;

    open spec fn deep_view(&self) -> ParseState {
        ParseState {
            frames: self.frames.deep_view(),
            nodes: self.nodes.deep_view(),
            skipped: self.skipped.deep_view(),
        }
    }
}

fn lines_vec(text: &Vec<char>) -> (r: Vec<Vec<char>>)
    ensures
        r.deep_view() == lines_of(text@),
{
    let raw = split_chars(text, '\n');
    let mut r: Vec<Vec<char>> = Vec::new();
    let mut i: usize = 0;
    while i < raw.len()
        invariant
            i <= raw.len(),
            raw.deep_view() == split_on(text@, '\n'),
            r.deep_view() == split_on(text@, '\n').subrange(0, i as int).map_values(
                |l: Seq<char>| trim(l),
            ),
        decreases raw.len() - i,
    {
        let t = trim_chars(&raw[i]);
        proof {
            assert(raw[i as int].deep_view() =~= raw[i as int]@);
            assert(raw.deep_view()[i as int] == raw[i as int].deep_view());
            assert(t.deep_view() =~= t@);
        }
        let ghost before = r.deep_view();
        r.push(t);
        assert(r.deep_view() =~= before.push(trim(raw.deep_view()[i as int])));
        assert(split_on(text@, '\n').subrange(0, i + 1) =~= split_on(text@, '\n').subrange(
            0,
            i as int,
        ).push(raw.deep_view()[i as int]));
        i += 1;
        assert(r.deep_view() =~= split_on(text@, '\n').subrange(0, i as int).map_values(
            |l: Seq<char>| trim(l),
        ));
    }
    assert(split_on(text@, '\n').subrange(0, i as int) =~= split_on(text@, '\n'));
    r
}

fn unquote_chars(v: &Vec<char>) -> (r: Vec<char>)
    ensures
        r@ == unquote(v@),
{
    let mut r: Vec<char> = Vec::new();
    let mut i: usize = 0;
    while i < v.len()
        invariant
            i <= v.len(),
            r@ == unquote(v@.subrange(0, i as int)),
        decreases v.len() - i,
    {
        let c = v[i];
        assert(v@.subrange(0, i + 1).drop_last() =~= v@.subrange(0, i as int));
        if !(c == '\'' || c == '"' || c == ';') {
            r.push(c);
        }
        i += 1;
    }
    assert(v@.subrange(0, v.len() as int) =~= v@);
    r
}

/// The name and value of a line with a colon, as a declaration or as a
/// property.
fn pair_of(l: &Vec<char>, declaration: bool) -> (r: (String, String))
    requires
        has_colon(l@),
    ensures
        r.0@ == pair_name(l@),
        r.1@ == if declaration {
            declared_value(l@)
        } else {
            pair_value(l@)
        },
{
    let parts = split_chars(l, ':');
    proof {
        lemma_split_on_len(l@, ':');
        assert(parts[0]@ =~= parts.deep_view()[0]);
    }
    let k = parts[0].len();
    assert(k < l.len());
    let name = trim_chars(&parts[0]);
    let rest = slice_chars(l, k + 1, l.len());
    let value = if declaration {
        declared_chars(&rest)
    } else {
        value_chars(&rest)
    };
    (string_from(&name), string_from(&value))
}

fn contains_path(names: &Vec<String>, p: &String) -> (r: bool)
    ensures
        r == names.deep_view().contains(p@),
{
    let mut i: usize = 0;
    while i < names.len()
        invariant
            i <= names.len(),
            forall|m: int| 0 <= m < i ==> names.deep_view()[m] != p@,
        decreases names.len() - i,
    {
        if names[i] == *p {
            assert(names.deep_view()[i as int] == p@);
            return true;
        }
        i += 1;
    }
    false
}

fn find_source(sources: &Vec<Source>, p: &String) -> (r: Option<usize>)
    ensures
        match r {
            Some(k) => k < sources.len() && lookup_source(sources.deep_view(), p@) == Some(
                sources[k as int].text@,
            ),
            None => lookup_source(sources.deep_view(), p@) is None,
        },
{
    let mut i: usize = 0;
    while i < sources.len()
        invariant
            i <= sources.len(),
            forall|m: int| 0 <= m < i ==> (#[trigger] sources.deep_view()[m]).0 != p@,
        decreases sources.len() - i,
    {
        if sources[i].path == *p {
            proof {
                lemma_lookup_at(sources.deep_view(), p@, i as int);
            }
            return Some(i);
        }
        i += 1;
    }
    proof {
        lemma_lookup_at(sources.deep_view(), p@, i as int);
    }
    None
}

fn put_prop(props: &mut Vec<(String, String)>, name: String, value: String)
    ensures
        final(props).deep_view() == put(old(props).deep_view(), name@, value@),
{
    let ghost old_view = props.deep_view();
    let mut j: usize = 0;
    while j < props.len()
        invariant
            j <= props.len(),
            props.deep_view() == old_view,
            old_view == old(props).deep_view(),
            forall|m: int| 0 <= m < j ==> (#[trigger] old_view[m]).0 != name@,
        decreases props.len() - j,
    {
        if props[j].0 == name {
            proof {
                lemma_put_at(old_view, name@, value@, j as int);
            }
            let _ = props.remove(j);
            props.insert(j, (name, value));
            assert(props.deep_view() =~= old_view.update(j as int, (name@, value@)));
            assert(props.deep_view() == put(old_view, name@, value@));
            return;
        }
        j += 1;
    }
    proof {
        lemma_put_new(old_view, name@, value@);
    }
    props.push((name, value));
    assert(props.deep_view() =~= old_view.push((name@, value@)));
}

} // verus!

verus! {

fn import_marker_chars() -> (r: Vec<char>)
    ensures
        r@ == import_marker(),
{
    let r = vec!['@', 'i', 'm', 'p', 'o', 'r', 't'];
    assert(r@ =~= import_marker());
    r
}

/// The path of each open block, outermost first.
fn path_vec(frames: &Vec<Frame>) -> (r: Vec<String>)
    ensures
        r.deep_view() == path_of(frames.deep_view()),
{
    let mut r: Vec<String> = Vec::new();
    let mut i: usize = 0;
    while i < frames.len()
        invariant
            i <= frames.len(),
            r.deep_view() == path_of(frames.deep_view()).subrange(0, i as int),
        decreases frames.len() - i,
    {
        let s = frames[i].selector.clone();
        assert(s@ == frames.deep_view()[i as int].selector);
        let ghost r0 = r.deep_view();
        r.push(s);
        assert(r.deep_view() =~= r0.push(s@));
        i += 1;
        assert(r.deep_view() =~= path_of(frames.deep_view()).subrange(0, i as int));
    }
    assert(path_of(frames.deep_view()).subrange(0, i as int) =~= path_of(frames.deep_view()));
    r
}

/// Reads one trimmed line into the parse state; `false` where an imported
/// source ends inside a block.
fn step_line(
    sources: &Vec<Source>,
    depth: usize,
    active: &mut Vec<String>,
    st: &mut Parser,
    l: &Vec<char>,
) -> (ok: bool)
    ensures
        final(active)@ == old(active)@,
        match step(sources.deep_view(), depth as nat, old(active).deep_view(), old(st).deep_view(), l@) {
            Some(s) => ok && final(st).deep_view() == s,
            None => !ok,
        },
    decreases depth, 0nat,
{
    if l.len() == 0 {
        return true;
    }
    if st.frames.len() == 0 {
        let marker = import_marker_chars();
        if has_prefix(l, &marker) {
            let rest = slice_chars(l, 7, l.len());
            let t = trim_chars(&rest);
            let path_chars = unquote_chars(&t);
            let path = string_from(&path_chars);
            let seen = contains_path(active, &path);
            let found = find_source(sources, &path);
            if depth > 0 && !seen && found.is_some() {
                let k = found.unwrap();
                let text = chars_of(sources[k].text.as_str());
                let ghost a0 = active.deep_view();
                active.push(path.clone());
                assert(active.deep_view() =~= a0.push(path@));
                let sub = parse_text(sources, depth - 1, active, &text);
                let _ = active.pop();
                assert(active@ =~= old(active)@);
                match sub {
                    Some((ns, sk)) => {
                        let ghost n0 = st.nodes.deep_view();
                        let ghost s0 = st.skipped.deep_view();
                        let mut ns = ns;
                        let mut sk = sk;
                        let ghost nsv = ns.deep_view();
                        let ghost skv = sk.deep_view();
                        st.nodes.append(&mut ns);
                        st.skipped.append(&mut sk);
                        assert(st.nodes.deep_view() =~= n0 + nsv);
                        assert(st.skipped.deep_view() =~= s0 + skv);
                        return true;
                    },
                    None => {
                        return false;
                    },
                }
            } else {
                let ghost s0 = st.skipped.deep_view();
                st.skipped.push(path);
                assert(st.skipped.deep_view() =~= s0.push(path_chars@));
                return true;
            }
        }
        if l[0] == '@' {
            let parts = split_chars(l, ':');
            if parts.len() == 2 {
                let (name, value) = pair_of(l, true);
                let ghost n0 = st.nodes.deep_view();
                st.nodes.push(ASTNode::Variable(name, value));
                assert(st.nodes.deep_view() =~= n0.push(NodeView::Variable(pair_name(l@), declared_value(l@))));
                return true;
            }
        }
        if l[l.len() - 1] == '{' {
            let head = strip_trailing(l, '{');
            let sel = trim_chars(&head);
            let fr = Frame { selector: string_from(&sel), props: Vec::new() };
            assert(fr.props.deep_view() =~= Seq::<(Seq<char>, Seq<char>)>::empty());
            st.frames.push(fr);
            assert(st.frames.deep_view() =~= seq![FrameView { selector: selector_of(l@), props: seq![] }]);
            return true;
        }
        return true;
    }
    if l.len() == 1 && l[0] == '}' {
        assert(l@ =~= seq!['}']);
        let path = path_vec(&st.frames);
        let ghost f0 = st.frames.deep_view();
        let ghost n0 = st.nodes.deep_view();
        let f = st.frames.pop().unwrap();
        assert(st.frames.deep_view() =~= f0.drop_last());
        st.nodes.push(ASTNode::Rule(path, f.props));
        assert(st.nodes.deep_view() =~= n0.push(NodeView::Rule(path_of(f0), f0.last().props)));
        return true;
    }
    assert(!closes_block(l@)) by {
        if l@ == seq!['}'] {
            assert(l@[0] == '}');
        }
    }
    if l[l.len() - 1] == '{' {
        let head = strip_trailing(l, '{');
        let sel = trim_chars(&head);
        let ghost f0 = st.frames.deep_view();
        let fr = Frame { selector: string_from(&sel), props: Vec::new() };
        assert(fr.props.deep_view() =~= Seq::<(Seq<char>, Seq<char>)>::empty());
        st.frames.push(fr);
        assert(st.frames.deep_view() =~= f0.push(FrameView { selector: selector_of(l@), props: seq![] }));
        return true;
    }
    let parts = split_chars(l, ':');
    if parts.len() > 1 {
        let (name, value) = pair_of(l, false);
        let ghost f0 = st.frames.deep_view();
        let mut f = st.frames.pop().unwrap();
        put_prop(&mut f.props, name, value);
        st.frames.push(f);
        assert(st.frames.deep_view() =~= f0.update(
            f0.len() - 1,
            FrameView { props: put(f0.last().props, pair_name(l@), pair_value(l@)), ..f0.last() },
        ));
        return true;
    }
    true
}

spec fn holds_parse(r: Option<(Vec<ASTNode>, Vec<String>)>, ns: Seq<NodeView>, sk: Seq<Seq<char>>) -> bool {
    match r {
        Some((nodes, skipped)) => nodes.deep_view() == ns && skipped.deep_view() == sk,
        None => false,
    }
}

/// Parses `text`, following its imports through `sources` with `active` the
/// paths being imported already.
fn parse_text(sources: &Vec<Source>, depth: usize, active: &mut Vec<String>, text: &Vec<char>) -> (r:
    Option<(Vec<ASTNode>, Vec<String>)>)
    ensures
        final(active)@ == old(active)@,
        match parse_doc(sources.deep_view(), depth as nat, old(active).deep_view(), text@) {
            Some((ns, sk)) => holds_parse(r, ns, sk),
            None => r is None,
        },
    decreases depth, 1nat,
{
    let lines = lines_vec(text);
    let ghost src = sources.deep_view();
    let ghost act = active.deep_view();
    let ghost lv = lines.deep_view();
    let mut st = Parser { frames: Vec::new(), nodes: Vec::new(), skipped: Vec::new() };
    assert(st.frames.deep_view() =~= Seq::<FrameView>::empty());
    assert(st.nodes.deep_view() =~= Seq::<NodeView>::empty());
    assert(st.skipped.deep_view() =~= Seq::<Seq<char>>::empty());
    let mut i: usize = 0;
    while i < lines.len()
        invariant
            i <= lines.len(),
            lv == lines.deep_view(),
            lv == lines_of(text@),
            src == sources.deep_view(),
            act == old(active).deep_view(),
            active@ == old(active)@,
            run(src, depth as nat, act, lv, i as nat) == Some(st.deep_view()),
        decreases lines.len() - i,
    {
        proof {
            assert(lines[i as int].deep_view() =~= lines[i as int]@);
        }
        let ok = step_line(sources, depth, active, &mut st, &lines[i]);
        if !ok {
            proof {
                lemma_run_stays_none(src, depth as nat, act, lv, (i + 1) as nat, lv.len());
            }
            return None;
        }
        i += 1;
    }
    if st.frames.len() == 0 {
        Some((st.nodes, st.skipped))
    } else {
        None
    }
}

/// Parses `less_code`: its nodes in order, with each import followed through
/// `sources` and spliced in at its place. An import whose path names no
/// source, or names a source that is being imported already (a cycle), is
/// skipped and reported. A block left open, here or in an imported source,
/// is an error.
pub fn parse_less(less_code: &str, sources: &Vec<Source>) -> (r: Result<Document, ParseError>)
    ensures
        match parse_doc(sources.deep_view(), sources.len() as nat, seq![], less_code@) {
            Some((ns, sk)) => r is Ok && r->Ok_0.nodes.deep_view() == ns
                && r->Ok_0.skipped_imports.deep_view() == sk,
            None => r == Err::<Document, ParseError>(ParseError::UnclosedBlock),
        },
        r matches Ok(d) ==> nodes_ok(d.nodes.deep_view()),
{
    proof {
        lemma_parse_doc_rules_ok(sources.deep_view(), sources.len() as nat, seq![], less_code@);
    }
    let text = chars_of(less_code);
    let mut active: Vec<String> = Vec::new();
    assert(active.deep_view() =~= Seq::<Seq<char>>::empty());
    match parse_text(sources, sources.len(), &mut active, &text) {
        Some((nodes, skipped_imports)) => Ok(Document { nodes, skipped_imports }),
        None => Err(ParseError::UnclosedBlock),
    }
}

} // verus!

verus! {

/// Splits a declaration line at its one colon: the trimmed name, and the
/// value trimmed and without terminators. A line with no colon or with more
/// than one is no declaration.
pub fn extract_variables_from_line(line: &str) -> (r: Result<(String, String), ()>)
    ensures
        r is Ok <==> split_on(line@, ':').len() == 2,
        r matches Ok((name, value)) ==> name@ == pair_name(line@) && value@ == declared_value(line@),
{
    let l = chars_of(line);
    let parts = split_chars(&l, ':');
    if parts.len() == 2 {
        Ok(pair_of(&l, true))
    } else {
        Err(())
    }
}

/// The paths named by the import lines among the first `n` lines.
pub open spec fn imports_upto(lines: Seq<Seq<char>>, n: nat) -> Seq<Seq<char>>
    decreases n,
{
    if n == 0 {
        seq![]
    } else if is_import(lines[n - 1]) {
        imports_upto(lines, (n - 1) as nat).push(import_path(lines[n - 1]))
    } else {
        imports_upto(lines, (n - 1) as nat)
    }
}

/// The paths that the import lines of `text` name, in order.
pub open spec fn imports_of(text: Seq<char>) -> Seq<Seq<char>> {
    imports_upto(lines_of(text), lines_of(text).len())
}

/// The paths that the import lines of `less_code` name, in order: the
/// sources that a parse of it may ask for.
pub fn import_paths(less_code: &str) -> (r: Vec<String>)
    ensures
        r.deep_view() == imports_of(less_code@),
{
    let text = chars_of(less_code);
    let lines = lines_vec(&text);
    let marker = import_marker_chars();
    let ghost lv = lines.deep_view();
    let mut r: Vec<String> = Vec::new();
    let mut i: usize = 0;
    while i < lines.len()
        invariant
            i <= lines.len(),
            lv == lines.deep_view(),
            lv == lines_of(text@),
            marker@ == import_marker(),
            r.deep_view() == imports_upto(lv, i as nat),
        decreases lines.len() - i,
    {
        let l = &lines[i];
        proof {
            assert(l.deep_view() =~= l@);
        }
        if has_prefix(l, &marker) {
            let rest = slice_chars(l, 7, l.len());
            let t = trim_chars(&rest);
            let p = unquote_chars(&t);
            let ghost r0 = r.deep_view();
            r.push(string_from(&p));
            assert(r.deep_view() =~= r0.push(p@));
        }
        i += 1;
    }
    r
}

} // verus!

verus! {

/// No two properties of the sequence share a name.
pub open spec fn names_unique(props: Seq<(Seq<char>, Seq<char>)>) -> bool {
    forall|i: int, j: int| 0 <= i < j < props.len() ==> props[i].0 != props[j].0
}

/// Setting a property twice leaves what setting it once to the second value
/// leaves: the last write wins, and no duplicate is kept.
pub proof fn lemma_put_last_wins(
    props: Seq<(Seq<char>, Seq<char>)>,
    name: Seq<char>,
    first: Seq<char>,
    second: Seq<char>,
)
    ensures
        put(put(props, name, first), name, second) == put(props, name, second),
    decreases props.len(),
{
    if props.len() == 0 {
        assert(put(put(props, name, first), name, second) =~= put(props, name, second));
    } else if props[0].0 == name {
        let once = put(props, name, first);
        assert(once[0].0 == name);
        assert(once.drop_first() =~= props.drop_first());
        assert(put(once, name, second) =~= put(props, name, second));
    } else {
        let once = put(props, name, first);
        lemma_put_last_wins(props.drop_first(), name, first, second);
        assert(once[0] == props[0]);
        assert(once.drop_first() =~= put(props.drop_first(), name, first));
        assert(put(once, name, second) =~= put(props, name, second));
    }
}

/// Setting a property keeps each name at most once.
pub proof fn lemma_put_keeps_names_unique(
    props: Seq<(Seq<char>, Seq<char>)>,
    name: Seq<char>,
    value: Seq<char>,
)
    requires
        names_unique(props),
    ensures
        names_unique(put(props, name, value)),
        exists|k: int| 0 <= k < put(props, name, value).len() && put(props, name, value)[k] == (name, value),
    decreases props.len(),
{
    let r = put(props, name, value);
    if props.len() == 0 {
        assert(r[0] == (name, value));
    } else if props[0].0 == name {
        assert(r[0] == (name, value));
        assert forall|i: int, j: int| 0 <= i < j < r.len() implies r[i].0 != r[j].0 by {
            assert(r[j] == props[j]);
            if i > 0 {
                assert(r[i] == props[i]);
            }
        }
    } else {
        let rest = props.drop_first();
        assert forall|i: int, j: int| 0 <= i < j < rest.len() implies rest[i].0 != rest[j].0 by {
            assert(rest[i] == props[i + 1]);
            assert(rest[j] == props[j + 1]);
        }
        lemma_put_keeps_names_unique(rest, name, value);
        let t = put(rest, name, value);
        let k = choose|k: int| 0 <= k < t.len() && t[k] == (name, value);
        assert(r[k + 1] == (name, value));
        lemma_put_names(rest, name, value);
        assert forall|i: int, j: int| 0 <= i < j < r.len() implies r[i].0 != r[j].0 by {
            if i == 0 {
                assert(r[j] == t[j - 1]);
                assert(r[0] == props[0]);
                if t[j - 1].0 != name {
                    let m = choose|m: int| 0 <= m < rest.len() && rest[m].0 == t[j - 1].0;
                    assert(rest[m] == props[m + 1]);
                }
            } else {
                assert(r[i] == t[i - 1]);
                assert(r[j] == t[j - 1]);
            }
        }
    }
}

/// Each name after setting a property is the name set or an earlier one.
proof fn lemma_put_names(props: Seq<(Seq<char>, Seq<char>)>, name: Seq<char>, value: Seq<char>)
    ensures
        forall|j: int|
            0 <= j < put(props, name, value).len() ==> #[trigger] put(props, name, value)[j].0 == name
                || exists|m: int| 0 <= m < props.len() && props[m].0 == put(props, name, value)[j].0,
    decreases props.len(),
{
    let r = put(props, name, value);
    if props.len() > 0 {
        let rest = props.drop_first();
        lemma_put_names(rest, name, value);
        assert forall|j: int| 0 <= j < r.len() implies #[trigger] r[j].0 == name || exists|m: int|
            0 <= m < props.len() && props[m].0 == r[j].0 by {
            if props[0].0 == name {
                if j > 0 {
                    assert(r[j] == props[j]);
                }
            } else if j == 0 {
                assert(r[0] == props[0]);
            } else {
                assert(r[j] == put(rest, name, value)[j - 1]);
                if r[j].0 != name {
                    let m = choose|m: int| 0 <= m < rest.len() && rest[m].0 == put(rest, name, value)[j - 1].0;
                    assert(props[m + 1] == rest[m]);
                }
            }
        }
    }
}

} // verus!

verus! {

/// A well-formed node: a rule has a non-empty path and each property name once.
pub open spec fn node_ok(n: NodeView) -> bool {
    match n {
        NodeView::Rule(path, props) => path.len() >= 1 && names_unique(props),
        NodeView::Variable(_, _) => true,
    }
}

pub open spec fn nodes_ok(ns: Seq<NodeView>) -> bool {
    forall|k: int| 0 <= k < ns.len() ==> node_ok(#[trigger] ns[k])
}

spec fn state_ok(st: ParseState) -> bool {
    &&& nodes_ok(st.nodes)
    &&& forall|k: int| 0 <= k < st.frames.len() ==> names_unique(#[trigger] st.frames[k].props)
}

/// Every rule that a parse produces has a non-empty selector path and each
/// property name at most once.
pub proof fn lemma_parse_doc_rules_ok(
    src: Seq<(Seq<char>, Seq<char>)>,
    depth: nat,
    active: Seq<Seq<char>>,
    text: Seq<char>,
)
    ensures
        parse_doc(src, depth, active, text) matches Some((ns, _)) ==> nodes_ok(ns),
    decreases depth, lines_of(text).len() + 1,
{
    lemma_run_ok(src, depth, active, lines_of(text), lines_of(text).len());
}

proof fn lemma_run_ok(
    src: Seq<(Seq<char>, Seq<char>)>,
    depth: nat,
    active: Seq<Seq<char>>,
    lines: Seq<Seq<char>>,
    n: nat,
)
    ensures
        run(src, depth, active, lines, n) matches Some(st) ==> state_ok(st),
    decreases depth, n,
{
    if n > 0 {
        lemma_run_ok(src, depth, active, lines, (n - 1) as nat);
        if let Some(st) = run(src, depth, active, lines, (n - 1) as nat) {
            lemma_step_ok(src, depth, active, st, lines[n - 1]);
        }
    }
}

proof fn lemma_step_ok(
    src: Seq<(Seq<char>, Seq<char>)>,
    depth: nat,
    active: Seq<Seq<char>>,
    st: ParseState,
    l: Seq<char>,
)
    requires
        state_ok(st),
    ensures
        step(src, depth, active, st, l) matches Some(s2) ==> state_ok(s2),
    decreases depth, 0nat,
{
    if l.len() == 0 {
    } else if st.frames.len() == 0 {
        if is_import(l) {
            let p = import_path(l);
            if follows(src, depth, active, p) {
                let t = lookup_source(src, p)->0;
                lemma_parse_doc_rules_ok(src, (depth - 1) as nat, active.push(p), t);
                if let Some((ns, sk)) = parse_doc(src, (depth - 1) as nat, active.push(p), t) {
                    let all = st.nodes + ns;
                    assert forall|k: int| 0 <= k < all.len() implies node_ok(#[trigger] all[k]) by {
                        if k >= st.nodes.len() {
                            assert(all[k] == ns[k - st.nodes.len()]);
                        }
                    }
                }
            }
        } else if is_declaration(l) {
            let all = st.nodes.push(NodeView::Variable(pair_name(l), declared_value(l)));
            assert forall|k: int| 0 <= k < all.len() implies node_ok(#[trigger] all[k]) by {
                if k < st.nodes.len() {
                    assert(all[k] == st.nodes[k]);
                }
            }
        } else if opens_block(l) {
            let fs = seq![FrameView { selector: selector_of(l), props: seq![] }];
            assert(names_unique(fs[0].props));
        }
    } else if closes_block(l) {
        let all = st.nodes.push(NodeView::Rule(path_of(st.frames), st.frames.last().props));
        assert(names_unique(st.frames[st.frames.len() - 1].props));
        assert forall|k: int| 0 <= k < all.len() implies node_ok(#[trigger] all[k]) by {
            if k < st.nodes.len() {
                assert(all[k] == st.nodes[k]);
            }
        }
        let fs = st.frames.drop_last();
        assert forall|k: int| 0 <= k < fs.len() implies names_unique(#[trigger] fs[k].props) by {
            assert(fs[k] == st.frames[k]);
        }
    } else if opens_block(l) {
        let fs = st.frames.push(FrameView { selector: selector_of(l), props: seq![] });
        assert forall|k: int| 0 <= k < fs.len() implies names_unique(#[trigger] fs[k].props) by {
            if k < st.frames.len() {
                assert(fs[k] == st.frames[k]);
            }
        }
    } else if has_colon(l) {
        let top = st.frames.last();
        assert(names_unique(st.frames[st.frames.len() - 1].props));
        lemma_put_keeps_names_unique(top.props, pair_name(l), pair_value(l));
        let fs = st.frames.update(
            st.frames.len() - 1,
            FrameView { props: put(top.props, pair_name(l), pair_value(l)), ..top },
        );
        assert forall|k: int| 0 <= k < fs.len() implies names_unique(#[trigger] fs[k].props) by {
            if k < st.frames.len() - 1 {
                assert(fs[k] == st.frames[k]);
            }
        }
    }
}

/// How many blocks stand open after the first `n` lines, counted from the
/// block markers alone.
pub open spec fn open_depth(lines: Seq<Seq<char>>, n: nat) -> nat
    decreases n,
{
    if n == 0 {
        0
    } else {
        let d = open_depth(lines, (n - 1) as nat);
        let l = lines[n - 1];
        if l.len() == 0 {
            d
        } else if d == 0 {
            if !is_import(l) && !is_declaration(l) && opens_block(l) {
                1
            } else {
                0
            }
        } else if closes_block(l) {
            (d - 1) as nat
        } else if opens_block(l) {
            d + 1
        } else {
            d
        }
    }
}

proof fn lemma_run_depth(
    src: Seq<(Seq<char>, Seq<char>)>,
    depth: nat,
    active: Seq<Seq<char>>,
    lines: Seq<Seq<char>>,
    n: nat,
)
    ensures
        run(src, depth, active, lines, n) matches Some(st) ==> st.frames.len() == open_depth(lines, n),
    decreases n,
{
    if n > 0 {
        lemma_run_depth(src, depth, active, lines, (n - 1) as nat);
        if let Some(st0) = run(src, depth, active, lines, (n - 1) as nat) {
            let l = lines[n - 1];
            assert(run(src, depth, active, lines, n) == step(src, depth, active, st0, l));
            if let Some(st1) = step(src, depth, active, st0, l) {
                if l.len() > 0 && st0.frames.len() == 0 && is_import(l) {
                    assert(st1.frames == st0.frames);
                }
            }
        }
    }
}

proof fn lemma_run_some_without_imports(
    src: Seq<(Seq<char>, Seq<char>)>,
    depth: nat,
    active: Seq<Seq<char>>,
    lines: Seq<Seq<char>>,
    n: nat,
)
    requires
        imports_upto(lines, n).len() == 0,
    ensures
        run(src, depth, active, lines, n) is Some,
    decreases n,
{
    if n > 0 {
        assert(!is_import(lines[n - 1]));
        assert(imports_upto(lines, (n - 1) as nat).len() == 0);
        lemma_run_some_without_imports(src, depth, active, lines, (n - 1) as nat);
        let st0 = run(src, depth, active, lines, (n - 1) as nat)->0;
        assert(run(src, depth, active, lines, n) == step(src, depth, active, st0, lines[n - 1]));
    }
}

/// A block left open is always reported: where blocks stay open at the end
/// of the text the parse fails, and in a text without imports it fails only
/// then.
pub proof fn lemma_unclosed_block_detected(
    src: Seq<(Seq<char>, Seq<char>)>,
    depth: nat,
    active: Seq<Seq<char>>,
    text: Seq<char>,
)
    ensures
        open_depth(lines_of(text), lines_of(text).len()) > 0 ==> parse_doc(src, depth, active, text) is None,
        imports_of(text).len() == 0 ==> (parse_doc(src, depth, active, text) is None <==> open_depth(
            lines_of(text),
            lines_of(text).len(),
        ) > 0),
{
    let lines = lines_of(text);
    lemma_run_depth(src, depth, active, lines, lines.len());
    if imports_of(text).len() == 0 {
        lemma_run_some_without_imports(src, depth, active, lines, lines.len());
    }
}

} // verus!
