//! References to nodes of nested graphs in the D2 language: the way from
//! the outermost graph down to the node.

use crate::dot::{escape_quote, escaped_quotes};
use crate::text::push_char;
use vstd::prelude::*;

verus! {

/// A string between double quotes, with its own quotes escaped.
pub open spec fn escaped_string(s: Seq<char>) -> Seq<char> {
    seq!['"'] + escaped_quotes(s) + seq!['"']
}

/// A string between double quotes, with its own quotes escaped; a raw
/// marker at its start is text like any other.
pub fn escape_string(input: &str) -> (r: String)
    ensures
        r@ == escaped_string(input@),
{
    let mut out = String::new();
    push_char(&mut out, '"');
    out.append(escape_quote(input).as_str());
    push_char(&mut out, '"');
    assert(out@ =~= escaped_string(input@));
    out
}

/// The way to a node: the names of the graphs around it from the outermost
/// inwards, and its own name last.
#[derive(Debug)]
pub struct NodeRef(pub Vec<String>);

/// The names, each as a quoted string, with dots between them.
pub open spec fn dotted(names: Seq<String>) -> Seq<char>
    decreases names.len(),
{
    if names.len() == 0 {
        Seq::empty()
    } else if names.len() == 1 {
        escaped_string(names[0]@)
    } else {
        dotted(names.drop_last()) + seq!['.'] + escaped_string(names.last()@)
    }
}

impl NodeRef {
    /// The names of the way.
    pub open spec fn names(&self) -> Seq<String> {
        self.0@
    }

    /// The way from one graph further out: `value` is put in front.
    pub fn prepend(self, value: String) -> (longer: NodeRef)
        ensures
            longer.names() == seq![value] + self.names(),
    {
        let mut names = self.0;
        names.insert(0, value);
        assert(names@ =~= seq![value] + self.names());
        NodeRef(names)
    }

    /// The reference as it is written: the names as quoted strings with
    /// dots between them.
    pub fn to_string(&self) -> (text: String)
        ensures
            text@ == dotted(self.names()),
    {
        let mut text = String::new();
        for i in 0..self.0.len()
            invariant
                text@ == dotted(self.0@.take(i as int)),
        {
            assert(self.0@.take(i + 1).drop_last() =~= self.0@.take(i as int));
            if i > 0 {
                push_char(&mut text, '.');
            }
            text.append(escape_string(self.0[i].as_str()).as_str());
            assert(text@ =~= dotted(self.0@.take(i + 1)));
        }
        assert(self.0@.take(self.0@.len() as int) =~= self.0@);
        text
    }
}

} // verus!
