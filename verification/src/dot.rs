//! A builder for text in the DOT language: graphs, nested subgraphs, nodes,
//! edges and attribute lists, with the quoting that identifiers need.

use crate::text::{chars_of, decimal, push_char, push_decimal, starts_with};
use vstd::prelude::*;

verus! {

/// The prefix that marks a value to be written as it is, without quotes.
pub open spec fn raw_marker() -> Seq<char> {
    seq!['R', 'A', 'W', ':']
}

/// `s` with a backslash put in front of every double quote.
pub open spec fn escaped_quotes(s: Seq<char>) -> Seq<char>
    decreases s.len(),
{
    if s.len() == 0 {
        Seq::empty()
    } else if s.last() == '"' {
        escaped_quotes(s.drop_last()) + seq!['\\', '"']
    } else {
        escaped_quotes(s.drop_last()).push(s.last())
    }
}

/// Reads text in which quotes were escaped: every backslash that stands
/// directly before a double quote is dropped.
pub open spec fn unescaped_quotes(s: Seq<char>) -> Seq<char>
    decreases s.len(),
{
    if s.len() == 0 {
        Seq::empty()
    } else if s.len() >= 2 && s[0] == '\\' && s[1] == '"' {
        seq!['"'] + unescaped_quotes(s.skip(2))
    } else {
        seq![s[0]] + unescaped_quotes(s.skip(1))
    }
}

/// An identifier or attribute value as it stands in the output: what follows
/// the raw marker unchanged, anything else between double quotes with its
/// own quotes escaped.
pub open spec fn escaped_id(s: Seq<char>) -> Seq<char> {
    if raw_marker().is_prefix_of(s) {
        s.skip(4)
    } else {
        seq!['"'] + escaped_quotes(s) + seq!['"']
    }
}

/// A quoted identifier read back: the quotes around it removed and the
/// escapes inside undone.
pub open spec fn unquoted_id(s: Seq<char>) -> Seq<char> {
    if s.len() >= 2 && s.first() == '"' && s.last() == '"' {
        unescaped_quotes(s.subrange(1, s.len() - 1))
    } else {
        s
    }
}

/// `s` with the characters that HTML-like labels reserve replaced by their
/// entities.
pub open spec fn html_escaped(s: Seq<char>) -> Seq<char>
    decreases s.len(),
{
    if s.len() == 0 {
        Seq::empty()
    } else {
        html_escaped(s.drop_last()) + html_entity(s.last())
    }
}

/// What stands for one character in an HTML-like label.
pub open spec fn html_entity(c: char) -> Seq<char> {
    if c == '&' {
        "&amp;"@
    } else if c == '"' {
        "&quot;"@
    } else if c == '<' {
        "&lt;"@
    } else if c == '>' {
        "&gt;"@
    } else {
        seq![c]
    }
}

/// `s` with a tab put after every line break.
pub open spec fn indented(s: Seq<char>) -> Seq<char>
    decreases s.len(),
{
    if s.len() == 0 {
        Seq::empty()
    } else if s.last() == '\n' {
        indented(s.drop_last()) + seq!['\n', '\t']
    } else {
        indented(s.drop_last()).push(s.last())
    }
}

/// The keys and values of an attribute list as sequences of characters.
pub open spec fn attr_views(attrs: Seq<(&str, &str)>) -> Seq<(Seq<char>, Seq<char>)> {
    Seq::new(attrs.len(), |i: int| (attrs[i].0@, attrs[i].1@))
}

/// One attribute: key, equals sign, value.
pub open spec fn attribute(a: (Seq<char>, Seq<char>)) -> Seq<char> {
    escaped_id(a.0) + seq!['='] + escaped_id(a.1)
}

/// The attributes separated by a comma and a space.
pub open spec fn joined_attributes(attrs: Seq<(Seq<char>, Seq<char>)>) -> Seq<char>
    decreases attrs.len(),
{
    if attrs.len() == 0 {
        Seq::empty()
    } else if attrs.len() == 1 {
        attribute(attrs[0])
    } else {
        joined_attributes(attrs.drop_last()) + seq![',', ' '] + attribute(attrs.last())
    }
}

/// An attribute list in square brackets.
pub open spec fn attribute_list(attrs: Seq<(Seq<char>, Seq<char>)>) -> Seq<char> {
    seq!['['] + joined_attributes(attrs) + seq![']']
}

/// The attributes as statements of their own, one per line.
pub open spec fn attribute_lines(attrs: Seq<(Seq<char>, Seq<char>)>) -> Seq<char>
    decreases attrs.len(),
{
    if attrs.len() == 0 {
        Seq::empty()
    } else {
        attribute_lines(attrs.drop_last()) + seq!['\t'] + attribute(attrs.last()) + seq![
            ';',
            '\n',
        ]
    }
}

/// The opening of a graph or subgraph block.
pub open spec fn graph_header(
    name: Seq<char>,
    kind: Seq<char>,
    attrs: Seq<(Seq<char>, Seq<char>)>,
) -> Seq<char> {
    kind + seq![' '] + escaped_id(name) + seq![' ', '{', '\n'] + attribute_lines(attrs)
}

/// A statement that sets default attributes for `target` (graph, edge or node).
pub open spec fn default_attributes(target: Seq<char>, attrs: Seq<(Seq<char>, Seq<char>)>) -> Seq<
    char,
> {
    seq!['\t'] + target + seq![' '] + attribute_list(attrs) + seq![';', '\n']
}

/// A node statement.
pub open spec fn node_statement(id: Seq<char>, attrs: Seq<(Seq<char>, Seq<char>)>) -> Seq<char> {
    seq!['\t'] + escaped_id(id) + seq![' '] + attribute_list(attrs) + seq!['\n']
}

/// The attributes of a node that takes no room and is not drawn.
pub open spec fn invisible_attributes() -> Seq<(Seq<char>, Seq<char>)> {
    seq![("style"@, "invis"@), ("label"@, ""@), ("shape"@, "point"@)]
}

/// One end of an edge: a node, or a port of a node.
pub open spec fn endpoint(node: Seq<char>, port: Option<Seq<char>>) -> Seq<char> {
    match port {
        Some(p) => escaped_id(node) + seq![':'] + escaped_id(p),
        None => escaped_id(node),
    }
}

/// An edge statement.
pub open spec fn edge_statement(
    from: Seq<char>,
    from_port: Option<Seq<char>>,
    to: Seq<char>,
    to_port: Option<Seq<char>>,
    attrs: Seq<(Seq<char>, Seq<char>)>,
) -> Seq<char> {
    seq!['\t'] + endpoint(from, from_port) + " -> "@ + endpoint(to, to_port) + seq![' ']
        + attribute_list(attrs) + seq!['\n']
}

/// The items of a rank statement, each followed by its separator.
pub open spec fn rank_items(nodes: Seq<&str>) -> Seq<char>
    decreases nodes.len(),
{
    if nodes.len() == 0 {
        Seq::empty()
    } else {
        rank_items(nodes.drop_last()) + nodes.last()@ + seq!['\n', ';', ' ', '\n']
    }
}

/// A statement that puts the given nodes on one rank.
pub open spec fn rank_statement(nodes: Seq<&str>) -> Seq<char> {
    "{ rank = same;"@ + rank_items(nodes) + seq!['}', '\n']
}

/// A finished subgraph as it stands inside its parent: indented by one tab.
pub open spec fn nested_block(body: Seq<char>) -> Seq<char> {
    seq!['\t'] + indented(body + seq!['}', '\n']) + seq!['\n']
}

/// Text in a font of the given colour and size, for an HTML-like label;
/// nothing for empty text.
pub open spec fn font_tag_text(text: Seq<char>, color: Seq<char>, size: nat) -> Seq<char> {
    if text.len() == 0 {
        Seq::empty()
    } else {
        "<FONT COLOR=\""@ + color + "\" POINT-SIZE=\""@ + decimal(size) + "\">"@ + html_escaped(
            text,
        ) + "</FONT>"@
    }
}

/// Escaping distributes over concatenation.
pub proof fn lemma_escaped_quotes_concat(a: Seq<char>, b: Seq<char>)
    ensures
        escaped_quotes(a + b) == escaped_quotes(a) + escaped_quotes(b),
    decreases b.len(),
{
    if b.len() == 0 {
        assert(a + b =~= a);
        assert(escaped_quotes(a) + escaped_quotes(b) =~= escaped_quotes(a));
    } else {
        assert((a + b).drop_last() =~= a + b.drop_last());
        assert((a + b).last() == b.last());
        lemma_escaped_quotes_concat(a, b.drop_last());
        if b.last() == '"' {
            assert(escaped_quotes(a + b) =~= escaped_quotes(a) + escaped_quotes(b));
        } else {
            assert(escaped_quotes(a + b) =~= escaped_quotes(a) + escaped_quotes(b));
        }
    }
}

/// Escaped text never begins with a double quote.
proof fn lemma_escaped_quotes_first(s: Seq<char>)
    ensures
        escaped_quotes(s).len() >= s.len(),
        s.len() > 0 ==> escaped_quotes(s)[0] != '"',
        s.len() > 0 && s[0] != '"' ==> escaped_quotes(s)[0] == s[0],
    decreases s.len(),
{
    if s.len() > 0 {
        lemma_escaped_quotes_first(s.drop_last());
        if s.len() == 1 {
            assert(escaped_quotes(s.drop_last()) =~= Seq::<char>::empty());
        } else {
            assert(s.drop_last()[0] == s[0]);
        }
    }
}

/// Undoing the escapes of escaped text gives back the text, whatever it
/// holds: quotes, backslashes, or a backslash before a quote.
pub proof fn lemma_escape_round_trip(s: Seq<char>)
    ensures
        unescaped_quotes(escaped_quotes(s)) == s,
    decreases s.len(),
{
    if s.len() == 0 {
    } else {
        let c = s[0];
        let rest = s.skip(1);
        assert(s =~= seq![c] + rest);
        lemma_escaped_quotes_concat(seq![c], rest);
        lemma_escape_round_trip(rest);
        lemma_escaped_quotes_first(rest);
        assert(seq![c].drop_last() =~= Seq::<char>::empty());
        assert(escaped_quotes(Seq::<char>::empty()) =~= Seq::<char>::empty());
        assert(seq![c].last() == c);
        let e = escaped_quotes(s);
        let er = escaped_quotes(rest);
        if c == '"' {
            assert(escaped_quotes(seq![c]) =~= seq!['\\', '"']);
            assert(e =~= seq!['\\', '"'] + er);
            assert(e.skip(2) =~= er);
            assert(unescaped_quotes(e) =~= seq!['"'] + unescaped_quotes(er));
        } else {
            assert(escaped_quotes(seq![c]) =~= seq![c]);
            assert(e =~= seq![c] + er);
            assert(e.skip(1) =~= er);
            if e.len() >= 2 {
                assert(e[1] == er[0]);
                assert(rest.len() > 0);
            }
            assert(unescaped_quotes(e) =~= seq![c] + unescaped_quotes(er));
        }
    }
}

/// A quoted identifier, read back, is the identifier that was written, for
/// every identifier that does not begin with the raw marker.
pub proof fn lemma_escape_id_round_trip(s: Seq<char>)
    requires
        !raw_marker().is_prefix_of(s),
    ensures
        unquoted_id(escaped_id(s)) == s,
{
    let q = escaped_id(s);
    lemma_escape_round_trip(s);
    assert(q.subrange(1, q.len() - 1) =~= escaped_quotes(s));
}

/// What follows the raw marker is written as it is.
pub proof fn lemma_raw_passthrough(s: Seq<char>)
    ensures
        escaped_id(raw_marker() + s) == s,
{
    let t = raw_marker() + s;
    assert(t.subrange(0, 4) =~= raw_marker());
    assert(t.skip(4) =~= s);
}

fn push_escaped_quotes(out: &mut String, input: &str)
    ensures
        final(out)@ == old(out)@ + escaped_quotes(input@),
{
    let ghost start = out@;
    for c in it: input.chars()
        invariant
            it.seq() == input@,
            out@ == start + escaped_quotes(input@.take(it.index() as int)),
    {
        assert(input@.take(it.index() + 1).drop_last() =~= input@.take(it.index() as int));
        if c == '"' {
            push_char(out, '\\');
            push_char(out, '"');
            assert(out@ =~= start + escaped_quotes(input@.take(it.index() + 1)));
        } else {
            push_char(out, c);
            assert(out@ =~= start + escaped_quotes(input@.take(it.index() + 1)));
        }
    }
    assert(input@.take(input@.len() as int) =~= input@);
}

/// `input` with a backslash before each of its double quotes.
pub fn escape_quote(input: &str) -> (r: String)
    ensures
        r@ == escaped_quotes(input@),
{
    let mut out = String::new();
    push_escaped_quotes(&mut out, input);
    assert(Seq::<char>::empty() + escaped_quotes(input@) =~= escaped_quotes(input@));
    out
}

fn push_escaped_id(out: &mut String, input: &str)
    ensures
        final(out)@ == old(out)@ + escaped_id(input@),
{
    let ghost start = out@;
    proof {
        reveal_strlit("RAW:");
        assert("RAW:"@ =~= raw_marker());
    }
    if starts_with(input, "RAW:") {
        let v = chars_of(input);
        let mut i: usize = 4;
        while i < v.len()
            invariant
                4 <= i <= v.len(),
                v@ == input@,
                out@ == start + input@.subrange(4, i as int),
            decreases v.len() - i,
        {
            push_char(out, v[i]);
            assert(input@.subrange(4, i + 1) =~= input@.subrange(4, i as int).push(input@[i as int]));
            i += 1;
        }
        assert(input@.subrange(4, input@.len() as int) =~= input@.skip(4));
    } else {
        push_char(out, '"');
        push_escaped_quotes(out, input);
        push_char(out, '"');
        assert(out@ =~= start + escaped_id(input@));
    }
}

/// An identifier or attribute value as it is written: between double
/// quotes, with its own quotes escaped; or, where it begins with the raw
/// marker, what follows the marker, unchanged.
pub fn escape_id(input: &str) -> (r: String)
    ensures
        r@ == escaped_id(input@),
{
    let mut out = String::new();
    push_escaped_id(&mut out, input);
    assert(Seq::<char>::empty() + escaped_id(input@) =~= escaped_id(input@));
    out
}

fn push_attribute(out: &mut String, key: &str, value: &str)
    ensures
        final(out)@ == old(out)@ + attribute((key@, value@)),
{
    let ghost start = out@;
    push_escaped_id(out, key);
    push_char(out, '=');
    push_escaped_id(out, value);
    assert(out@ =~= start + attribute((key@, value@)));
}

fn push_attribute_list(out: &mut String, attrs: &[(&str, &str)])
    ensures
        final(out)@ == old(out)@ + attribute_list(attr_views(attrs@)),
{
    let ghost start = out@;
    let ghost views = attr_views(attrs@);
    push_char(out, '[');
    for i in 0..attrs.len()
        invariant
            views == attr_views(attrs@),
            out@ == start + seq!['['] + joined_attributes(views.take(i as int)),
    {
        let (key, value) = attrs[i];
        assert(views.take(i + 1).drop_last() =~= views.take(i as int));
        assert(views.take(i + 1).last() == (key@, value@));
        if i > 0 {
            push_char(out, ',');
            push_char(out, ' ');
        }
        push_attribute(out, key, value);
        assert(out@ =~= start + seq!['['] + joined_attributes(views.take(i + 1)));
    }
    assert(views.take(attrs@.len() as int) =~= views);
    push_char(out, ']');
    assert(out@ =~= start + attribute_list(views));
}

/// An attribute list in square brackets, each key and value written as an
/// identifier.
pub fn format_attributes(attrs: &[(&str, &str)]) -> (r: String)
    ensures
        r@ == attribute_list(attr_views(attrs@)),
{
    let mut out = String::new();
    push_attribute_list(&mut out, attrs);
    assert(Seq::<char>::empty() + attribute_list(attr_views(attrs@)) =~= attribute_list(
        attr_views(attrs@),
    ));
    out
}

fn push_html_escaped(out: &mut String, input: &str)
    ensures
        final(out)@ == old(out)@ + html_escaped(input@),
{
    let ghost start = out@;
    for c in it: input.chars()
        invariant
            it.seq() == input@,
            out@ == start + html_escaped(input@.take(it.index() as int)),
    {
        assert(input@.take(it.index() + 1).drop_last() =~= input@.take(it.index() as int));
        let ghost before = out@;
        if c == '&' {
            out.append("&amp;");
        } else if c == '"' {
            out.append("&quot;");
        } else if c == '<' {
            out.append("&lt;");
        } else if c == '>' {
            out.append("&gt;");
        } else {
            push_char(out, c);
        }
        assert(out@ =~= before + html_entity(c));
        assert(out@ =~= start + html_escaped(input@.take(it.index() + 1)));
    }
    assert(input@.take(input@.len() as int) =~= input@);
}

/// `input` with `&`, `"`, `<` and `>` replaced by their entities.
pub fn html_escape(input: &str) -> (r: String)
    ensures
        r@ == html_escaped(input@),
{
    let mut out = String::new();
    push_html_escaped(&mut out, input);
    assert(Seq::<char>::empty() + html_escaped(input@) =~= html_escaped(input@));
    out
}

/// A font tag of the given colour and point size around the escaped text;
/// the empty string for empty text.
pub fn font_tag(text: &str, color: &str, size: u8) -> (r: String)
    ensures
        r@ == font_tag_text(text@, color@, size as nat),
{
    let mut out = String::new();
    if text.is_empty() {
        return out;
    }
    out.append("<FONT COLOR=\"");
    out.append(color);
    out.append("\" POINT-SIZE=\"");
    push_decimal(&mut out, size as usize);
    out.append("\">");
    push_html_escaped(&mut out, text);
    out.append("</FONT>");
    assert(out@ =~= font_tag_text(text@, color@, size as nat));
    out
}

fn push_indented(out: &mut String, input: &str)
    ensures
        final(out)@ == old(out)@ + indented(input@),
{
    let ghost start = out@;
    for c in it: input.chars()
        invariant
            it.seq() == input@,
            out@ == start + indented(input@.take(it.index() as int)),
    {
        assert(input@.take(it.index() + 1).drop_last() =~= input@.take(it.index() as int));
        push_char(out, c);
        if c == '\n' {
            push_char(out, '\t');
        }
        assert(out@ =~= start + indented(input@.take(it.index() + 1)));
    }
    assert(input@.take(input@.len() as int) =~= input@);
}

/// A graph or subgraph under construction: the text written so far, from
/// the opening of its block on.
pub struct DotGraph {
    buffer: String,
}

impl View for DotGraph {
    type V = Seq<char>;

    closed spec fn view(&self) -> Seq<char> {
        self.buffer@
    }
}

impl DotGraph {
    /// Opens a block of the given kind and name, and writes the attributes
    /// as statements of its own.
    pub fn new(name: &str, kind: &str, attrs: &[(&str, &str)]) -> (dot: DotGraph)
        ensures
            dot@ == graph_header(name@, kind@, attr_views(attrs@)),
    {
        let mut dot = DotGraph { buffer: String::new() };
        let ghost views = attr_views(attrs@);
        dot.buffer.append(kind);
        push_char(&mut dot.buffer, ' ');
        push_escaped_id(&mut dot.buffer, name);
        dot.buffer.append(" {");
        push_char(&mut dot.buffer, '\n');
        proof {
            reveal_strlit(" {");
            assert(" {"@ =~= seq![' ', '{']);
        }
        let ghost head = kind@ + seq![' '] + escaped_id(name@) + seq![' ', '{', '\n'];
        assert(dot.buffer@ =~= head);
        for i in 0..attrs.len()
            invariant
                views == attr_views(attrs@),
                dot.buffer@ == head + attribute_lines(views.take(i as int)),
        {
            let (key, value) = attrs[i];
            assert(views.take(i + 1).drop_last() =~= views.take(i as int));
            assert(views.take(i + 1).last() == (key@, value@));
            push_char(&mut dot.buffer, '\t');
            push_attribute(&mut dot.buffer, key, value);
            push_char(&mut dot.buffer, ';');
            push_char(&mut dot.buffer, '\n');
            assert(dot.buffer@ =~= head + attribute_lines(views.take(i + 1)));
        }
        assert(views.take(attrs@.len() as int) =~= views);
        dot
    }

    /// Opens a directed graph.
    pub fn digraph(name: &str, options: &[(&str, &str)]) -> (dot: DotGraph)
        ensures
            dot@ == graph_header(name@, "digraph"@, attr_views(options@)),
    {
        DotGraph::new(name, "digraph", options)
    }

    /// Opens a subgraph that is drawn as a cluster: its name gets the prefix
    /// that the layout engine asks for.
    pub fn subgraph(name: &str, options: &[(&str, &str)]) -> (dot: DotGraph)
        ensures
            dot@ == graph_header("cluster"@ + name@, "subgraph"@, attr_views(options@)),
    {
        let mut full = String::new();
        full.append("cluster");
        full.append(name);
        assert(full@ =~= "cluster"@ + name@);
        DotGraph::new(full.as_str(), "subgraph", options)
    }

    fn defaults(&mut self, target: &str, attrs: &[(&str, &str)])
        ensures
            final(self)@ == old(self)@ + default_attributes(target@, attr_views(attrs@)),
    {
        let ghost start = self.buffer@;
        push_char(&mut self.buffer, '\t');
        self.buffer.append(target);
        push_char(&mut self.buffer, ' ');
        push_attribute_list(&mut self.buffer, attrs);
        push_char(&mut self.buffer, ';');
        push_char(&mut self.buffer, '\n');
        assert(self.buffer@ =~= start + default_attributes(target@, attr_views(attrs@)));
    }

    /// Sets default attributes of the graph.
    pub fn graph_attributes(self, attrs: &[(&str, &str)]) -> (dot: Self)
        ensures
            dot@ == self@ + default_attributes("graph"@, attr_views(attrs@)),
    {
        let mut dot = self;
        dot.defaults("graph", attrs);
        dot
    }

    /// Sets default attributes of the edges.
    pub fn edge_attributes(self, attrs: &[(&str, &str)]) -> (dot: Self)
        ensures
            dot@ == self@ + default_attributes("edge"@, attr_views(attrs@)),
    {
        let mut dot = self;
        dot.defaults("edge", attrs);
        dot
    }

    /// Sets default attributes of the nodes.
    pub fn node_attributes(self, attrs: &[(&str, &str)]) -> (dot: Self)
        ensures
            dot@ == self@ + default_attributes("node"@, attr_views(attrs@)),
    {
        let mut dot = self;
        dot.defaults("node", attrs);
        dot
    }

    /// Puts the given nodes on one rank.
    pub fn same_rank(&mut self, nodes: &[&str])
        ensures
            final(self)@ == old(self)@ + rank_statement(nodes@),
    {
        let ghost start = self.buffer@;
        self.write_no_newline("{ rank = same;");
        for i in 0..nodes.len()
            invariant
                self.buffer@ == start + "{ rank = same;"@ + rank_items(nodes@.take(i as int)),
        {
            assert(nodes@.take(i + 1).drop_last() =~= nodes@.take(i as int));
            proof {
                reveal_strlit("; ");
                assert("; "@ =~= seq![';', ' ']);
            }
            self.write(nodes[i]);
            self.write("; ");
            assert(self.buffer@ =~= start + "{ rank = same;"@ + rank_items(nodes@.take(i + 1)));
        }
        assert(nodes@.take(nodes@.len() as int) =~= nodes@);
        proof {
            reveal_strlit("}");
            assert("}"@ =~= seq!['}']);
        }
        self.write("}");
        assert(self.buffer@ =~= start + rank_statement(nodes@));
    }

    /// Closes the block and hands out the whole text.
    pub fn finish(self) -> (text: String)
        ensures
            text@ == self@ + seq!['}', '\n'],
    {
        let mut dot = self;
        proof {
            reveal_strlit("}");
            assert("}"@ =~= seq!['}']);
        }
        dot.write("}");
        assert(dot.buffer@ =~= self@ + seq!['}', '\n']);
        dot.buffer
    }

    /// Closes `graph` and writes it into this graph as a nested block, one
    /// level deeper.
    pub fn add_sub_graph(&mut self, graph: DotGraph)
        ensures
            final(self)@ == old(self)@ + nested_block(graph@),
    {
        let ghost start = self.buffer@;
        let body = graph.finish();
        push_char(&mut self.buffer, '\t');
        push_indented(&mut self.buffer, body.as_str());
        push_char(&mut self.buffer, '\n');
        assert(self.buffer@ =~= start + nested_block(graph@));
    }

    /// Writes a node with its attributes.
    pub fn add_node(&mut self, id: &str, attrs: &[(&str, &str)])
        ensures
            final(self)@ == old(self)@ + node_statement(id@, attr_views(attrs@)),
    {
        let ghost start = self.buffer@;
        push_char(&mut self.buffer, '\t');
        push_escaped_id(&mut self.buffer, id);
        push_char(&mut self.buffer, ' ');
        push_attribute_list(&mut self.buffer, attrs);
        push_char(&mut self.buffer, '\n');
        assert(self.buffer@ =~= start + node_statement(id@, attr_views(attrs@)));
    }

    /// Writes a node that is not drawn.
    pub fn add_invisible_node(&mut self, id: &str)
        ensures
            final(self)@ == old(self)@ + node_statement(id@, invisible_attributes()),
    {
        let attrs = [("style", "invis"), ("label", ""), ("shape", "point")];
        assert(attr_views(attrs@) =~= invisible_attributes());
        self.add_node(id, &attrs);
    }

    /// Writes an edge between two nodes.
    pub fn add_edge(&mut self, from: &str, to: &str, attrs: &[(&str, &str)])
        ensures
            final(self)@ == old(self)@ + edge_statement(
                from@,
                None,
                to@,
                None,
                attr_views(attrs@),
            ),
    {
        self.add_edge_with_ports(from, None, to, None, attrs);
    }

    /// Writes an edge between two nodes or ports of nodes.
    pub fn add_edge_with_ports(
        &mut self,
        from: &str,
        from_port: Option<&str>,
        to: &str,
        to_port: Option<&str>,
        attrs: &[(&str, &str)],
    )
        ensures
            final(self)@ == old(self)@ + edge_statement(
                from@,
                port_view(from_port),
                to@,
                port_view(to_port),
                attr_views(attrs@),
            ),
    {
        let ghost start = self.buffer@;
        push_char(&mut self.buffer, '\t');
        push_endpoint(&mut self.buffer, from, from_port);
        self.buffer.append(" -> ");
        push_endpoint(&mut self.buffer, to, to_port);
        push_char(&mut self.buffer, ' ');
        push_attribute_list(&mut self.buffer, attrs);
        push_char(&mut self.buffer, '\n');
        assert(self.buffer@ =~= start + edge_statement(
            from@,
            port_view(from_port),
            to@,
            port_view(to_port),
            attr_views(attrs@),
        ));
    }

    fn write_no_newline(&mut self, text: &str)
        ensures
            final(self).buffer@ == old(self).buffer@ + text@,
    {
        self.buffer.append(text);
    }

    fn write(&mut self, text: &str)
        ensures
            final(self).buffer@ == old(self).buffer@ + text@ + seq!['\n'],
    {
        self.buffer.append(text);
        push_char(&mut self.buffer, '\n');
        assert(self.buffer@ =~= old(self).buffer@ + text@ + seq!['\n']);
    }
}

/// The characters of a port, where there is one.
pub open spec fn port_view(port: Option<&str>) -> Option<Seq<char>> {
    match port {
        Some(p) => Some(p@),
        None => None,
    }
}

fn push_endpoint(out: &mut String, node: &str, port: Option<&str>)
    ensures
        final(out)@ == old(out)@ + endpoint(node@, port_view(port)),
{
    let ghost start = out@;
    push_escaped_id(out, node);
    match port {
        Some(p) => {
            push_char(out, ':');
            push_escaped_id(out, p);
            assert(out@ =~= start + endpoint(node@, port_view(port)));
        },
        None => {},
    }
}

} // verus!
