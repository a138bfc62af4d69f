//! A writer for the DOT graph language that knows nothing of what a graph
//! means: it takes identifiers and attributes as text, quotes them, and keeps
//! the nesting of clusters in stack order.

use vstd::prelude::*;
use crate::text::{chars_of, push_text};

verus! {

/// One attribute of a node, an edge or a cluster: a key and its value.
pub struct Attr {
    pub key: String,
    pub value: String,
}

impl View for Attr {
    type V = (Seq<char>, Seq<char>);

    open spec fn view(&self) -> (Seq<char>, Seq<char>) {
        (self.key@, self.value@)
    }
}

/// The attributes of `v` as pairs of text.
pub open spec fn attrs_view(v: Seq<Attr>) -> Seq<(Seq<char>, Seq<char>)> {
    Seq::new(v.len(), |i: int| v[i]@)
}

/// How one character is written inside a quoted string.
pub open spec fn escape_char(c: char) -> Seq<char> {
    if c == '"' {
        seq!['\\', '"']
    } else if c == '\\' {
        seq!['\\', '\\']
    } else if c == '\n' {
        seq!['\\', 'n']
    } else {
        seq![c]
    }
}

/// `s` with every character written as it stands inside a quoted string.
pub open spec fn escaped(s: Seq<char>) -> Seq<char>
    decreases s.len(),
{
    if s.len() == 0 {
        Seq::empty()
    } else {
        escaped(s.drop_last()) + escape_char(s.last())
    }
}

/// `s` as a quoted string of the graph language.
pub open spec fn quoted(s: Seq<char>) -> Seq<char> {
    seq!['"'] + escaped(s) + seq!['"']
}

/// The text that an escape sequence stands for, read from the front.
pub open spec fn unescaped(t: Seq<char>) -> Seq<char>
    decreases t.len(),
{
    if t.len() == 0 {
        Seq::empty()
    } else if t[0] == '\\' && t.len() >= 2 {
        seq![if t[1] == 'n' { '\n' } else { t[1] }] + unescaped(t.skip(2))
    } else {
        seq![t[0]] + unescaped(t.skip(1))
    }
}

/// Escaping distributes over concatenation.
pub proof fn lemma_escaped_concat(a: Seq<char>, b: Seq<char>)
    ensures
        escaped(a + b) == escaped(a) + escaped(b),
    decreases b.len(),
{
    if b.len() == 0 {
        assert(a + b == a);
    } else {
        lemma_escaped_concat(a, b.drop_last());
        assert((a + b).drop_last() == a + b.drop_last());
        assert((a + b).last() == b.last());
    }
}

/// Escaping can be undone: reading back what was escaped gives back the
/// text that was escaped, so that no two texts are escaped alike and no quote
/// inside a text ends its string early.
pub proof fn law_escaping_can_be_undone(s: Seq<char>)
    ensures
        unescaped(escaped(s)) == s,
    decreases s.len(),
{
    if s.len() > 0 {
        let c = s[0];
        let rest = s.skip(1);
        assert(s == seq![c] + rest);
        lemma_escaped_concat(seq![c], rest);
        assert(seq![c].drop_last() == Seq::<char>::empty());
        assert(seq![c].last() == c);
        assert(escaped(Seq::<char>::empty()) == Seq::<char>::empty());
        assert(escaped(seq![c]) == Seq::<char>::empty() + escape_char(c));
        assert(escaped(seq![c]) == escape_char(c));
        law_escaping_can_be_undone(rest);
        let t = escaped(s);
        assert(t == escape_char(c) + escaped(rest));
        if c == '"' || c == '\\' || c == '\n' {
            assert(t.skip(2) == escaped(rest));
        } else {
            assert(t.skip(1) == escaped(rest));
        }
    }
}

/// The indentation of a statement that stands inside `depth` open scopes.
pub open spec fn indent(depth: nat) -> Seq<char>
    decreases depth,
{
    if depth == 0 {
        Seq::empty()
    } else {
        indent((depth - 1) as nat) + "  "@
    }
}

/// One attribute as `"key"="value"`.
pub open spec fn attr_text(a: (Seq<char>, Seq<char>)) -> Seq<char> {
    quoted(a.0) + "="@ + quoted(a.1)
}

/// The attributes separated by commas, without the brackets.
pub open spec fn attr_list(attrs: Seq<(Seq<char>, Seq<char>)>) -> Seq<char>
    decreases attrs.len(),
{
    if attrs.len() == 0 {
        Seq::empty()
    } else if attrs.len() == 1 {
        attr_text(attrs[0])
    } else {
        attr_list(attrs.drop_last()) + ", "@ + attr_text(attrs.last())
    }
}

/// The bracketed attribute list that follows a node or an edge; nothing at
/// all where there are no attributes.
pub open spec fn attr_block(attrs: Seq<(Seq<char>, Seq<char>)>) -> Seq<char> {
    if attrs.len() == 0 {
        Seq::empty()
    } else {
        " ["@ + attr_list(attrs) + "]"@
    }
}

/// The first line of a graph.
pub open spec fn header_text(directed: bool, name: Seq<char>) -> Seq<char> {
    (if directed {
        "digraph "@
    } else {
        "graph "@
    }) + quoted(name) + " {\n"@
}

/// The line that opens a cluster inside `depth` open clusters.
pub open spec fn open_text(depth: nat, id: Seq<char>) -> Seq<char> {
    indent(depth + 1) + "subgraph "@ + quoted("cluster_"@ + id) + " {\n"@
}

/// The line that closes the innermost of `depth` open clusters.
pub open spec fn close_text(depth: nat) -> Seq<char> {
    indent(depth) + "}\n"@
}

/// An attribute of the scope that is open at `depth`.
pub open spec fn scope_attr_text(depth: nat, key: Seq<char>, value: Seq<char>) -> Seq<char> {
    indent(depth + 1) + attr_text((key, value)) + ";\n"@
}

/// A node statement.
pub open spec fn node_text(depth: nat, id: Seq<char>, attrs: Seq<(Seq<char>, Seq<char>)>) -> Seq<
    char,
> {
    indent(depth + 1) + quoted(id) + attr_block(attrs) + ";\n"@
}

/// The attributes an edge is written with: an edge without direction in a
/// directed graph is drawn without an arrow head.
pub open spec fn edge_attrs(
    graph_directed: bool,
    edge_directed: bool,
    attrs: Seq<(Seq<char>, Seq<char>)>,
) -> Seq<(Seq<char>, Seq<char>)> {
    if graph_directed && !edge_directed {
        attrs.push(("dir"@, "none"@))
    } else {
        attrs
    }
}

/// An edge statement.
pub open spec fn edge_text(
    depth: nat,
    graph_directed: bool,
    from: Seq<char>,
    to: Seq<char>,
    edge_directed: bool,
    attrs: Seq<(Seq<char>, Seq<char>)>,
) -> Seq<char> {
    indent(depth + 1) + quoted(from) + (if graph_directed {
        " -> "@
    } else {
        " -- "@
    }) + quoted(to) + attr_block(edge_attrs(graph_directed, edge_directed, attrs)) + ";\n"@
}

/// The lines that close `depth` open clusters, innermost first.
pub open spec fn closers(depth: nat) -> Seq<char>
    decreases depth,
{
    if depth == 0 {
        Seq::empty()
    } else {
        close_text(depth) + closers((depth - 1) as nat)
    }
}

/// The end of a document in which `depth` clusters are still open.
pub open spec fn footer_text(depth: nat) -> Seq<char> {
    closers(depth) + "}\n"@
}

/// Appends `s`, escaped, to `out`.
pub fn push_escaped(out: &mut String, s: &str)
    ensures
        final(out)@ == old(out)@ + escaped(s@),
{
    let v = chars_of(s);
    let mut i: usize = 0;
    while i < v.len()
        invariant
            i <= v.len(),
            v@ == s@,
            out@ == old(out)@ + escaped(v@.subrange(0, i as int)),
        decreases v.len() - i,
    {
        let c = v[i];
        proof {
            let next = v@.subrange(0, i + 1);
            assert(next.drop_last() == v@.subrange(0, i as int));
            assert(next.last() == c);
        }
        if c == '"' {
            out.push('\\');
            out.push('"');
        } else if c == '\\' {
            out.push('\\');
            out.push('\\');
        } else if c == '\n' {
            out.push('\\');
            out.push('n');
        } else {
            out.push(c);
        }
        i += 1;
    }
    assert(v@.subrange(0, i as int) == v@);
}

/// Appends `s` as a quoted string to `out`.
pub fn push_quoted(out: &mut String, s: &str)
    ensures
        final(out)@ == old(out)@ + quoted(s@),
{
    out.push('"');
    push_escaped(out, s);
    out.push('"');
}

/// Appends `depth` levels of indentation.
pub fn push_indent(out: &mut String, depth: usize)
    ensures
        final(out)@ == old(out)@ + indent(depth as nat),
{
    let mut i: usize = 0;
    while i < depth
        invariant
            i <= depth,
            out@ == old(out)@ + indent(i as nat),
        decreases depth - i,
    {
        push_text(out, "  ");
        i += 1;
    }
}

/// Appends the attributes separated by commas, without brackets.
pub fn push_attr_list(out: &mut String, attrs: &Vec<Attr>)
    ensures
        final(out)@ == old(out)@ + attr_list(attrs_view(attrs@)),
{
    let ghost all = attrs_view(attrs@);
    let mut i: usize = 0;
    while i < attrs.len()
        invariant
            i <= attrs.len(),
            all == attrs_view(attrs@),
            out@ == old(out)@ + attr_list(all.subrange(0, i as int)),
        decreases attrs.len() - i,
    {
        proof {
            let next = all.subrange(0, i + 1);
            assert(next.drop_last() == all.subrange(0, i as int));
            assert(next.last() == attrs@[i as int]@);
            if i == 0 {
                assert(next[0] == attrs@[0]@);
            }
        }
        if i > 0 {
            push_text(out, ", ");
        }
        push_quoted(out, attrs[i].key.as_str());
        push_text(out, "=");
        push_quoted(out, attrs[i].value.as_str());
        i += 1;
    }
    assert(all.subrange(0, i as int) == all);
}

/// Appends the bracketed attribute list, or nothing where `attrs` is empty.
pub fn push_attr_block(out: &mut String, attrs: &Vec<Attr>)
    ensures
        final(out)@ == old(out)@ + attr_block(attrs_view(attrs@)),
{
    if attrs.len() > 0 {
        push_text(out, " [");
        push_attr_list(out, attrs);
        push_text(out, "]");
    }
}

/// Appends the attribute block of an edge.
pub fn push_edge_attrs(out: &mut String, graph_directed: bool, edge_directed: bool, attrs: &Vec<Attr>)
    ensures
        final(out)@ == old(out)@ + attr_block(
            edge_attrs(graph_directed, edge_directed, attrs_view(attrs@)),
        ),
{
    if graph_directed && !edge_directed {
        let ghost plain = attrs_view(attrs@);
        let ghost full = plain.push(("dir"@, "none"@));
        let mut block = String::new();
        push_attr_list(&mut block, attrs);
        if attrs.len() > 0 {
            push_text(&mut block, ", ");
        }
        let ghost lead = block@;
        push_quoted(&mut block, "dir");
        push_text(&mut block, "=");
        push_quoted(&mut block, "none");
        proof {
            assert(full.drop_last() == plain);
            assert(full.last() == ("dir"@, "none"@));
            assert(block@ == lead + attr_text(("dir"@, "none"@)));
            if plain.len() == 0 {
                assert(lead == Seq::<char>::empty());
                assert(full[0] == ("dir"@, "none"@));
            } else {
                assert(lead == attr_list(plain) + ", "@);
            }
            assert(block@ == attr_list(full));
        }
        push_text(out, " [");
        push_text(out, block.as_str());
        push_text(out, "]");
    } else {
        push_attr_block(out, attrs);
    }
}

/// A DOT document under construction.
pub struct DotWriter {
    out: String,
    depth: usize,
    directed: bool,
}

impl DotWriter {
    /// The text written so far.
    pub closed spec fn text(&self) -> Seq<char> {
        self.out@
    }

    /// The number of clusters that are open.
    pub closed spec fn depth(&self) -> nat {
        self.depth as nat
    }

    /// Whether the document is a directed graph.
    pub closed spec fn directed(&self) -> bool {
        self.directed
    }

    /// Opens a graph: directed or not, under the given name.
    pub fn begin(directed: bool, name: &str) -> (w: DotWriter)
        ensures
            w.text() == header_text(directed, name@),
            w.depth() == 0,
            w.directed() == directed,
    {
        let mut out = String::new();
        if directed {
            push_text(&mut out, "digraph ");
        } else {
            push_text(&mut out, "graph ");
        }
        push_quoted(&mut out, name);
        push_text(&mut out, " {\n");
        assert(out@ == header_text(directed, name@));
        DotWriter { out, depth: 0, directed }
    }

    /// The number of open clusters.
    pub fn open_clusters(&self) -> (d: usize)
        ensures
            d == self.depth(),
    {
        self.depth
    }

    /// Opens a cluster named `cluster_` followed by `id` inside the
    /// innermost open scope.
    pub fn open_cluster(&mut self, id: &str)
        requires
            old(self).depth() < usize::MAX,
        ensures
            final(self).text() == old(self).text() + open_text(old(self).depth(), id@),
            final(self).depth() == old(self).depth() + 1,
            final(self).directed() == old(self).directed(),
    {
        push_indent(&mut self.out, self.depth);
        push_text(&mut self.out, "  ");
        push_text(&mut self.out, "subgraph ");
        let mut name = String::new();
        push_text(&mut name, "cluster_");
        push_text(&mut name, id);
        assert(name@ == "cluster_"@ + id@);
        push_quoted(&mut self.out, name.as_str());
        push_text(&mut self.out, " {\n");
        self.depth = self.depth + 1;
    }

    /// Closes the innermost open cluster. Where none is open the document
    /// stays as it is: the graph itself is closed by `finish` alone.
    pub fn close_cluster(&mut self)
        ensures
            old(self).depth() > 0 ==> final(self).text() == old(self).text() + close_text(
                old(self).depth(),
            ),
            old(self).depth() > 0 ==> final(self).depth() == old(self).depth() - 1,
            old(self).depth() == 0 ==> final(self).text() == old(self).text(),
            old(self).depth() == 0 ==> final(self).depth() == 0,
            final(self).directed() == old(self).directed(),
    {
        if self.depth > 0 {
            push_indent(&mut self.out, self.depth);
            push_text(&mut self.out, "}\n");
            self.depth = self.depth - 1;
        }
    }

    /// Sets an attribute of the innermost open scope.
    pub fn scope_attr(&mut self, key: &str, value: &str)
        ensures
            final(self).text() == old(self).text() + scope_attr_text(
                old(self).depth(),
                key@,
                value@,
            ),
            final(self).depth() == old(self).depth(),
            final(self).directed() == old(self).directed(),
    {
        push_indent(&mut self.out, self.depth);
        push_text(&mut self.out, "  ");
        push_quoted(&mut self.out, key);
        push_text(&mut self.out, "=");
        push_quoted(&mut self.out, value);
        push_text(&mut self.out, ";\n");
    }

    /// Writes a node statement into the innermost open scope.
    pub fn node(&mut self, id: &str, attrs: &Vec<Attr>)
        ensures
            final(self).text() == old(self).text() + node_text(
                old(self).depth(),
                id@,
                attrs_view(attrs@),
            ),
            final(self).depth() == old(self).depth(),
            final(self).directed() == old(self).directed(),
    {
        push_indent(&mut self.out, self.depth);
        push_text(&mut self.out, "  ");
        push_quoted(&mut self.out, id);
        push_attr_block(&mut self.out, attrs);
        push_text(&mut self.out, ";\n");
    }

    /// Writes an edge statement into the innermost open scope. In a
    /// directed graph an edge with `directed` false is drawn without a head.
    pub fn edge(&mut self, from: &str, to: &str, directed: bool, attrs: &Vec<Attr>)
        ensures
            final(self).text() == old(self).text() + edge_text(
                old(self).depth(),
                old(self).directed(),
                from@,
                to@,
                directed,
                attrs_view(attrs@),
            ),
            final(self).depth() == old(self).depth(),
            final(self).directed() == old(self).directed(),
    {
        push_indent(&mut self.out, self.depth);
        push_text(&mut self.out, "  ");
        push_quoted(&mut self.out, from);
        if self.directed {
            push_text(&mut self.out, " -> ");
        } else {
            push_text(&mut self.out, " -- ");
        }
        push_quoted(&mut self.out, to);
        push_edge_attrs(&mut self.out, self.directed, directed, attrs);
        push_text(&mut self.out, ";\n");
    }

    /// Closes every cluster that is still open, innermost first, then the
    /// graph, and hands out the document.
    pub fn finish(self) -> (s: String)
        ensures
            s@ == self.text() + footer_text(self.depth()),
    {
        let mut w = self;
        while w.depth > 0
            invariant
                w.out@ + footer_text(w.depth as nat) == self.out@ + footer_text(self.depth as nat),
            decreases w.depth,
        {
            let ghost before = w.out@;
            let ghost d = w.depth as nat;
            push_indent(&mut w.out, w.depth);
            push_text(&mut w.out, "}\n");
            w.depth = w.depth - 1;
            assert(w.out@ == before + close_text(d));
            assert(closers(d) == close_text(d) + closers((d - 1) as nat));
            assert(w.out@ + footer_text(w.depth as nat) == before + footer_text(d));
        }
        push_text(&mut w.out, "}\n");
        assert(closers(0) == Seq::<char>::empty());
        w.out
    }
}

} // verus!
