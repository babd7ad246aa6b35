//! Shorter forms of the names of systems and types.

use crate::text::{chars_of, push_char};
use vstd::prelude::*;

verus! {

/// What `disqualified::ShortName` displays for a name: the name with the
/// module paths in it removed.
pub uninterp spec fn short_type_name(name: Seq<char>) -> Seq<char>;

/// The `Display` of `disqualified::ShortName`, which walks through the name
/// and writes it without its module paths. It is a function of the name
/// alone and takes every name.
#[verifier::external_body]
pub(crate) fn display_short_name(name: &str) -> (short: String)
    ensures
        short@ == short_type_name(name@),
{
    disqualified::ShortName(name).to_string()
}

/// What `pretty_type_name::pretty_type_name_str` makes of a name: the name
/// with each path in it cut down to its last segment.
pub uninterp spec fn pretty_type_name(name: Seq<char>) -> Seq<char>;

/// Whether after each comma and each semicolon of the name stands a
/// character that takes one byte.
pub open spec fn has_spaced_commas(name: Seq<char>) -> bool {
    forall|i: int|
        0 <= i < name.len() && (#[trigger] name[i] == ',' || name[i] == ';') ==> i + 1 < name.len()
            && name[i + 1] <= '\u{7f}'
}

/// The ending of the name of a closure.
pub open spec fn closure_suffix() -> Seq<char> {
    "::{{closure}}"@
}

/// Whether a name can be handed to `pretty_type_name_str`: once the
/// endings of closures are taken off, a character that takes one byte
/// stands after each comma and each semicolon.
pub open spec fn is_pretty_printable(name: Seq<char>) -> bool
    decreases name.len(),
{
    if closure_suffix().len() > 0 && closure_suffix().is_suffix_of(name) {
        is_pretty_printable(name.take(name.len() - closure_suffix().len()))
    } else {
        has_spaced_commas(name)
    }
}

/// `pretty_type_name_str` of the crate `pretty_type_name`, which cuts each
/// path of a type name down to its last segment. It first takes the
/// endings of closures off. Then it steps over the character after a comma
/// or a semicolon by two bytes, and fails where that character is not
/// there or is longer than a byte; such names are left out. The result
/// depends on the name alone.
#[verifier::external_body]
fn pretty_type_name_str(name: &str) -> (short: String)
    requires
        is_pretty_printable(name@),
    ensures
        short@ == pretty_type_name(name@),
{
    pretty_type_name::pretty_type_name_str(name)
}

/// Whether a name can be handed to `pretty_name`.
pub fn check_pretty_printable(name: &str) -> (ok: bool)
    ensures
        ok == is_pretty_printable(name@),
{
    let v = chars_of(name);
    let suffix = chars_of("::{{closure}}");
    let mut to: usize = v.len();
    assert(v@.take(v@.len() as int) =~= v@);
    proof {
        reveal_strlit("::{{closure}}");
    }
    loop
        invariant
            to <= v.len(),
            v@ == name@,
            suffix@ == closure_suffix(),
            suffix@.len() == 13,
            is_pretty_printable(name@) == is_pretty_printable(v@.take(to as int)),
        ensures
            !closure_suffix().is_suffix_of(v@.take(to as int)),
        decreases to,
    {
        let ghost rest = v@.take(to as int);
        if to < suffix.len() {
            break ;
        }
        let start = to - suffix.len();
        let mut k: usize = 0;
        let mut same = true;
        while k < suffix.len()
            invariant
                k <= suffix.len(),
                start + suffix.len() == to,
                to <= v.len(),
                rest == v@.take(to as int),
                same <==> forall|j: int| 0 <= j < k ==> rest[start + j] == suffix@[j],
            decreases suffix.len() - k,
        {
            if v[start + k] != suffix[k] {
                same = false;
            }
            k += 1;
        }
        if !same {
            assert(!suffix@.is_suffix_of(rest)) by {
                if suffix@.is_suffix_of(rest) {
                    let j = choose|j: int| 0 <= j < suffix@.len() && rest[start + j] != suffix@[j];
                    assert(rest.subrange(rest.len() - suffix@.len(), rest.len() as int)[j]
                        == suffix@[j]);
                }
            }
            break ;
        }
        assert(rest.subrange(rest.len() - suffix@.len(), rest.len() as int) =~= suffix@);
        assert(rest.take(rest.len() - suffix@.len()) =~= v@.take(start as int));
        to = start;
    }
    let ghost rest = v@.take(to as int);
    assert(is_pretty_printable(rest) == has_spaced_commas(rest));
    let mut i: usize = 0;
    while i < to
        invariant
            i <= to <= v.len(),
            rest == v@.take(to as int),
            is_pretty_printable(name@) == has_spaced_commas(rest),
            forall|j: int|
                0 <= j < i && (#[trigger] rest[j] == ',' || rest[j] == ';') ==> j + 1 < rest.len()
                    && rest[j + 1] <= '\u{7f}',
        decreases to - i,
    {
        if v[i] == ',' || v[i] == ';' {
            if i + 1 >= to || v[i + 1] > '\u{7f}' {
                assert(rest[i as int] == ',' || rest[i as int] == ';');
                assert(!(i + 1 < rest.len() && rest[i + 1] <= '\u{7f}'));
                return false;
            }
        }
        i += 1;
    }
    true
}

/// A name with each path in it cut down to its last segment.
pub fn pretty_name(name: &str) -> (short: String)
    requires
        is_pretty_printable(name@),
    ensures
        short@ == pretty_type_name(name@),
{
    pretty_type_name_str(name)
}

/// A name with each path in it cut down to its last segment; none for a
/// name in which a comma or a semicolon is followed by nothing or by a
/// character of more than one byte.
pub fn try_pretty_name(name: &str) -> (short: Option<String>)
    ensures
        short is Some == is_pretty_printable(name@),
        short is Some ==> short->0@ == pretty_type_name(name@),
{
    if check_pretty_printable(name) {
        Some(pretty_type_name_str(name))
    } else {
        None
    }
}

/// The name of a system without the module paths in it.
pub fn pretty_system_name(name: &str) -> (short: String)
    ensures
        short@ == short_type_name(name@),
{
    display_short_name(name)
}

/// The name of a system as it is.
pub fn full_system_name(name: &str) -> (full: String)
    ensures
        full@ == name@,
{
    name.to_owned()
}

/// The name of a system set as it is.
pub fn default_system_set_name(name: &str) -> (full: String)
    ensures
        full@ == name@,
{
    name.to_owned()
}

/// The place of the first `c` in `s`, or the length of `s` if it has none.
pub open spec fn first_place(s: Seq<char>, c: char) -> int
    decreases s.len(),
{
    if s.len() == 0 {
        0
    } else if s[0] == c {
        0
    } else {
        1 + first_place(s.skip(1), c)
    }
}

/// The place after the last `c` in `s`: 0 if it has none.
pub open spec fn end_of_last(s: Seq<char>, c: char) -> int
    decreases s.len(),
{
    if s.len() == 0 {
        0
    } else if s.last() == c {
        s.len() as int
    } else {
        end_of_last(s.drop_last(), c)
    }
}

/// The place after the last `::` in `s`: 0 if it has none.
pub open spec fn end_of_last_separator(s: Seq<char>) -> int
    decreases s.len(),
{
    if s.len() < 2 {
        0
    } else if s[s.len() - 2] == ':' && s[s.len() - 1] == ':' {
        s.len() as int
    } else {
        end_of_last_separator(s.drop_last())
    }
}

/// What follows the last `::` in `s`: all of `s` if it has none.
pub open spec fn last_segment(s: Seq<char>) -> Seq<char> {
    s.skip(end_of_last_separator(s))
}

/// Whether every `<` in the name has its `>`: the name has no `<`, or its
/// last `>` stands after its first `<` and what is between them is of that
/// kind again.
pub open spec fn has_closed_generics(s: Seq<char>) -> bool
    decreases s.len(),
{
    let open = first_place(s, '<');
    let close = end_of_last(s, '>') - 1;
    if open >= s.len() {
        true
    } else if 0 <= open < close < s.len() {
        has_closed_generics(s.subrange(open + 1, close))
    } else {
        false
    }
}

/// A type name without its module paths: of a name without generics the
/// last segment; else the last segment of what stands before the first `<`,
/// the short form of what stands between it and the last `>`, and what
/// follows unchanged.
pub open spec fn shortened(s: Seq<char>) -> Seq<char>
    decreases s.len(),
{
    let open = first_place(s, '<');
    let close = end_of_last(s, '>') - 1;
    if open >= s.len() {
        last_segment(s)
    } else if 0 <= open < close < s.len() {
        last_segment(s.take(open)) + seq!['<'] + shortened(s.subrange(open + 1, close)) + seq![
            '>',
        ] + s.skip(close + 1)
    } else {
        s
    }
}

proof fn lemma_first_place_bounds(s: Seq<char>, c: char)
    ensures
        0 <= first_place(s, c) <= s.len(),
        first_place(s, c) < s.len() ==> s[first_place(s, c)] == c,
        forall|i: int| 0 <= i < first_place(s, c) ==> s[i] != c,
    decreases s.len(),
{
    if s.len() > 0 && s[0] != c {
        lemma_first_place_bounds(s.skip(1), c);
        assert forall|i: int| 0 <= i < first_place(s, c) implies s[i] != c by {
            if i > 0 {
                assert(s.skip(1)[i - 1] == s[i]);
            }
        }
    }
}

proof fn lemma_end_of_last_bounds(s: Seq<char>, c: char)
    ensures
        0 <= end_of_last(s, c) <= s.len(),
        end_of_last(s, c) > 0 ==> s[end_of_last(s, c) - 1] == c,
        forall|i: int| end_of_last(s, c) <= i < s.len() ==> s[i] != c,
    decreases s.len(),
{
    if s.len() > 0 && s.last() != c {
        let rest = s.drop_last();
        lemma_end_of_last_bounds(rest, c);
        assert forall|i: int| end_of_last(s, c) <= i < s.len() implies s[i] != c by {
            if i < rest.len() {
                assert(rest[i] == s[i]);
            }
        }
        if end_of_last(s, c) > 0 {
            assert(rest[end_of_last(s, c) - 1] == s[end_of_last(s, c) - 1]);
        }
    }
}

proof fn lemma_end_of_last_separator_bounds(s: Seq<char>)
    ensures
        0 <= end_of_last_separator(s) <= s.len(),
    decreases s.len(),
{
    if s.len() >= 2 && !(s[s.len() - 2] == ':' && s[s.len() - 1] == ':') {
        lemma_end_of_last_separator_bounds(s.drop_last());
    }
}

pub(crate) fn find_first(v: &Vec<char>, from: usize, to: usize, c: char) -> (at: usize)
    requires
        from <= to <= v.len(),
    ensures
        at == from + first_place(v@.subrange(from as int, to as int), c),
        from <= at <= to,
{
    let mut i = from;
    proof {
        lemma_first_place_bounds(v@.subrange(from as int, to as int), c);
    }
    while i < to
        invariant
            from <= i <= to <= v.len(),
            first_place(v@.subrange(from as int, to as int), c) == (i - from) + first_place(
                v@.subrange(i as int, to as int),
                c,
            ),
        decreases to - i,
    {
        let ghost rest = v@.subrange(i as int, to as int);
        assert(rest[0] == v@[i as int]);
        if v[i] == c {
            return i;
        }
        assert(rest.skip(1) =~= v@.subrange(i + 1, to as int));
        i += 1;
    }
    i
}

fn find_end_of_last(v: &Vec<char>, from: usize, to: usize, c: char) -> (at: usize)
    requires
        from <= to <= v.len(),
    ensures
        at == from + end_of_last(v@.subrange(from as int, to as int), c),
        from <= at <= to,
{
    let mut i = to;
    proof {
        lemma_end_of_last_bounds(v@.subrange(from as int, to as int), c);
    }
    while i > from
        invariant
            from <= i <= to <= v.len(),
            end_of_last(v@.subrange(from as int, to as int), c) == end_of_last(
                v@.subrange(from as int, i as int),
                c,
            ),
        decreases i - from,
    {
        let ghost head = v@.subrange(from as int, i as int);
        assert(head.last() == v@[i - 1]);
        if v[i - 1] == c {
            return i;
        }
        assert(head.drop_last() =~= v@.subrange(from as int, i - 1));
        i -= 1;
    }
    i
}

fn find_end_of_last_separator(v: &Vec<char>, from: usize, to: usize) -> (at: usize)
    requires
        from <= to <= v.len(),
    ensures
        at == from + end_of_last_separator(v@.subrange(from as int, to as int)),
        from <= at <= to,
{
    let mut i = to;
    proof {
        lemma_end_of_last_separator_bounds(v@.subrange(from as int, to as int));
    }
    while i - from >= 2
        invariant
            from <= i <= to <= v.len(),
            end_of_last_separator(v@.subrange(from as int, to as int)) == end_of_last_separator(
                v@.subrange(from as int, i as int),
            ),
        decreases i - from,
    {
        let ghost head = v@.subrange(from as int, i as int);
        assert(head[head.len() - 1] == v@[i - 1]);
        assert(head[head.len() - 2] == v@[i - 2]);
        if v[i - 2] == ':' && v[i - 1] == ':' {
            return i;
        }
        assert(head.drop_last() =~= v@.subrange(from as int, i - 1));
        i -= 1;
    }
    from
}

fn push_range(out: &mut String, v: &Vec<char>, from: usize, to: usize)
    requires
        from <= to <= v.len(),
    ensures
        final(out)@ == old(out)@ + v@.subrange(from as int, to as int),
{
    let ghost start = out@;
    let mut i = from;
    assert(v@.subrange(from as int, from as int) =~= Seq::<char>::empty());
    while i < to
        invariant
            from <= i <= to <= v.len(),
            out@ == start + v@.subrange(from as int, i as int),
        decreases to - i,
    {
        push_char(out, v[i]);
        assert(v@.subrange(from as int, i + 1) =~= v@.subrange(from as int, i as int).push(
            v@[i as int],
        ));
        i += 1;
    }
}

fn push_shortened(out: &mut String, v: &Vec<char>, from: usize, to: usize)
    requires
        from <= to <= v.len(),
    ensures
        final(out)@ == old(out)@ + shortened(v@.subrange(from as int, to as int)),
    decreases to - from,
{
    let ghost start = out@;
    let ghost s = v@.subrange(from as int, to as int);
    let open = find_first(v, from, to, '<');
    let after_close = find_end_of_last(v, from, to, '>');
    if open >= to {
        let at = find_end_of_last_separator(v, from, to);
        push_range(out, v, at, to);
        assert(v@.subrange(at as int, to as int) =~= last_segment(s));
    } else if open + 1 < after_close {
        let close = after_close - 1;
        let ghost head = s.take(open - from);
        assert(head =~= v@.subrange(from as int, open as int));
        let at = find_end_of_last_separator(v, from, open);
        push_range(out, v, at, open);
        assert(v@.subrange(at as int, open as int) =~= last_segment(head));
        push_char(out, '<');
        assert(s.subrange(open - from + 1, close - from) =~= v@.subrange(open + 1, close as int));
        push_shortened(out, v, open + 1, close);
        push_char(out, '>');
        push_range(out, v, after_close, to);
        assert(v@.subrange(after_close as int, to as int) =~= s.skip(close - from + 1));
        assert(out@ =~= start + shortened(s));
    } else {
        push_range(out, v, from, to);
    }
}

/// A type name without its module paths; what stands in angle brackets is
/// shortened in the same way.
pub fn short_name(name: &str) -> (short: String)
    requires
        has_closed_generics(name@),
    ensures
        short@ == shortened(name@),
{
    let v = chars_of(name);
    let mut out = String::new();
    push_shortened(&mut out, &v, 0, v.len());
    assert(v@.subrange(0, v@.len() as int) =~= v@);
    assert(Seq::<char>::empty() + shortened(name@) =~= shortened(name@));
    out
}

/// Whether every `<` in the name has its `>`.
pub fn check_closed_generics(name: &str) -> (ok: bool)
    ensures
        ok == has_closed_generics(name@),
{
    let v = chars_of(name);
    let mut from: usize = 0;
    let mut to: usize = v.len();
    assert(v@.subrange(0, v@.len() as int) =~= v@);
    loop
        invariant
            from <= to <= v.len(),
            v@ == name@,
            has_closed_generics(name@) == has_closed_generics(
                v@.subrange(from as int, to as int),
            ),
        decreases to - from,
    {
        let ghost s = v@.subrange(from as int, to as int);
        let open = find_first(&v, from, to, '<');
        let after_close = find_end_of_last(&v, from, to, '>');
        if open >= to {
            return true;
        } else if open + 1 < after_close {
            assert(s.subrange(open - from + 1, after_close - 1 - from) =~= v@.subrange(
                open + 1,
                after_close - 1,
            ));
            from = open + 1;
            to = after_close - 1;
        } else {
            return false;
        }
    }
}

} // verus!
