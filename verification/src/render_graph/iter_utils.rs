//! Sorting by a text, and walking through two lists side by side.

use crate::text::chars_of;
use crate::settings::texts;
use vstd::prelude::*;

verus! {

/// Whether text `a` comes before text `b`: at the first place where they
/// differ `a` has the smaller character, or `a` ends there.
pub open spec fn text_precedes(a: Seq<char>, b: Seq<char>) -> bool
    decreases a.len(),
{
    if b.len() == 0 {
        false
    } else if a.len() == 0 {
        true
    } else if a[0] != b[0] {
        a[0] < b[0]
    } else {
        text_precedes(a.skip(1), b.skip(1))
    }
}

/// Whether text `a` comes before text `b`.
pub fn comes_before(a: &Vec<char>, b: &Vec<char>) -> (r: bool)
    ensures
        r == text_precedes(a@, b@),
{
    let mut k: usize = 0;
    assert(a@.skip(0) =~= a@);
    assert(b@.skip(0) =~= b@);
    loop
        invariant
            k <= a.len(),
            k <= b.len(),
            text_precedes(a@, b@) == text_precedes(a@.skip(k as int), b@.skip(k as int)),
        decreases a.len() - k,
    {
        if k >= b.len() {
            return false;
        }
        if k >= a.len() {
            return true;
        }
        assert(a@.skip(k as int)[0] == a@[k as int]);
        assert(b@.skip(k as int)[0] == b@[k as int]);
        if a[k] != b[k] {
            return a[k] < b[k];
        }
        assert(a@.skip(k as int).skip(1) =~= a@.skip(k + 1));
        assert(b@.skip(k as int).skip(1) =~= b@.skip(k + 1));
        k += 1;
    }
}

/// `sorted`, a list of items with their keys that is in the order of the
/// keys, with one more item put in before the first whose key does not
/// come before its key.
pub open spec fn put_in<T>(sorted: Seq<(Seq<char>, T)>, key: Seq<char>, item: T) -> Seq<
    (Seq<char>, T),
>
    decreases sorted.len(),
{
    if sorted.len() == 0 {
        seq![(key, item)]
    } else if text_precedes(sorted[0].0, key) {
        seq![sorted[0]] + put_in(sorted.skip(1), key, item)
    } else {
        seq![(key, item)] + sorted
    }
}

/// The items in the order of their keys; items with the same key stay in
/// the order in which they stand.
pub open spec fn sorted_pairs<T>(pairs: Seq<(Seq<char>, T)>) -> Seq<(Seq<char>, T)>
    decreases pairs.len(),
{
    if pairs.len() == 0 {
        Seq::empty()
    } else {
        put_in(sorted_pairs(pairs.skip(1)), pairs[0].0, pairs[0].1)
    }
}

proof fn lemma_text_order_steps(a: Seq<char>, b: Seq<char>, c: Seq<char>)
    ensures
        !text_precedes(a, a),
        a != b ==> (text_precedes(a, b) != text_precedes(b, a)),
        text_precedes(a, b) && text_precedes(b, c) ==> text_precedes(a, c),
    decreases a.len(),
{
    if a.len() > 0 {
        lemma_text_order_steps(a.skip(1), b.skip(1), c.skip(1));
        lemma_text_order_steps(a.skip(1), a.skip(1), a.skip(1));
        if b.len() > 0 && a[0] == b[0] && a != b {
            assert(a.skip(1) != b.skip(1)) by {
                if a.skip(1) == b.skip(1) {
                    assert(a =~= seq![a[0]] + a.skip(1));
                    assert(b =~= seq![b[0]] + b.skip(1));
                }
            }
        }
    } else if b.len() > 0 {
    } else {
        assert(a =~= b);
    }
}

/// The order of texts is an order: no text comes before itself; of two
/// different texts one comes first; and the order goes on from one to the
/// next.
pub proof fn lemma_text_order(a: Seq<char>, b: Seq<char>, c: Seq<char>)
    ensures
        !text_precedes(a, a),
        a != b ==> (text_precedes(a, b) != text_precedes(b, a)),
        text_precedes(a, b) && text_precedes(b, c) ==> text_precedes(a, c),
        !text_precedes(a, b) && !text_precedes(b, c) ==> !text_precedes(a, c),
{
    lemma_text_order_steps(a, b, c);
    lemma_text_order_steps(b, a, c);
    lemma_text_order_steps(b, c, a);
    lemma_text_order_steps(c, b, a);
    lemma_text_order_steps(a, c, b);
    lemma_text_order_steps(c, a, b);
}

/// Whether the keys of the pairs are in order: none comes before one that
/// stands before it.
pub open spec fn is_ordered<T>(pairs: Seq<(Seq<char>, T)>) -> bool {
    forall|i: int, j: int|
        0 <= i < j < pairs.len() ==> !text_precedes((#[trigger] pairs[j]).0, (#[trigger] pairs[i]).0)
}

proof fn lemma_put_in<T>(sorted: Seq<(Seq<char>, T)>, key: Seq<char>, item: T) -> (place: int)
    ensures
        0 <= place <= sorted.len(),
        put_in(sorted, key, item) == sorted.insert(place, (key, item)),
        forall|i: int| 0 <= i < place ==> text_precedes((#[trigger] sorted[i]).0, key),
        place < sorted.len() ==> !text_precedes(sorted[place].0, key),
    decreases sorted.len(),
{
    if sorted.len() == 0 {
        assert(put_in(sorted, key, item) =~= sorted.insert(0, (key, item)));
        0
    } else if text_precedes(sorted[0].0, key) {
        let rest = sorted.skip(1);
        let place = lemma_put_in(rest, key, item);
        assert(seq![sorted[0]] + rest.insert(place, (key, item)) =~= sorted.insert(
            place + 1,
            (key, item),
        ));
        assert forall|i: int| 0 <= i < place + 1 implies text_precedes(
            (#[trigger] sorted[i]).0,
            key,
        ) by {
            if i > 0 {
                assert(rest[i - 1] == sorted[i]);
            }
        }
        if place < rest.len() {
            assert(rest[place] == sorted[place + 1]);
        }
        place + 1
    } else {
        assert(seq![(key, item)] + sorted =~= sorted.insert(0, (key, item)));
        0
    }
}

/// The sorted pairs are the pairs, each as often as it stands there, with
/// their keys in order.
pub proof fn lemma_sorted_pairs<T>(pairs: Seq<(Seq<char>, T)>)
    ensures
        sorted_pairs(pairs).len() == pairs.len(),
        sorted_pairs(pairs).to_multiset() == pairs.to_multiset(),
        is_ordered(sorted_pairs(pairs)),
    decreases pairs.len(),
{
    if pairs.len() == 0 {
        assert(sorted_pairs(pairs) =~= pairs);
    } else {
        let rest = pairs.skip(1);
        lemma_sorted_pairs(rest);
        let before = sorted_pairs(rest);
        let key = pairs[0].0;
        let place = lemma_put_in(before, key, pairs[0].1);
        let all = sorted_pairs(pairs);
        assert(all == before.insert(place, pairs[0]));
        vstd::seq_lib::to_multiset_insert(before, place, pairs[0]);
        assert(pairs =~= rest.insert(0, pairs[0]));
        vstd::seq_lib::to_multiset_insert(rest, 0, pairs[0]);
        assert forall|i: int, j: int| 0 <= i < j < all.len() implies !text_precedes(
            (#[trigger] all[j]).0,
            (#[trigger] all[i]).0,
        ) by {
            if j < place {
                assert(all[i] == before[i] && all[j] == before[j]);
            } else if j == place {
                assert(all[i] == before[i]);
                lemma_text_order(all[i].0, key, key);
            } else {
                assert(all[j] == before[j - 1]);
                if i < place {
                    assert(all[i] == before[i]);
                } else if i == place {
                    if j - 1 > place {
                        assert(!text_precedes(before[j - 1].0, before[place].0));
                    }
                    lemma_text_order(before[j - 1].0, before[place].0, key);
                } else {
                    assert(all[i] == before[i - 1]);
                }
            }
        }
    }
}

/// The items, each with its key.
pub open spec fn paired<T>(keys: Seq<Seq<char>>, items: Seq<T>) -> Seq<(Seq<char>, T)> {
    Seq::new(items.len(), |i: int| (keys[i], items[i]))
}

/// The items of pairs of a key and an item.
pub open spec fn items_of<T>(pairs: Seq<(Seq<char>, T)>) -> Seq<T> {
    Seq::new(pairs.len(), |i: int| pairs[i].1)
}

/// The views of a list of texts.
pub open spec fn char_lists(keys: Seq<Vec<char>>) -> Seq<Seq<char>> {
    Seq::new(keys.len(), |i: int| keys[i]@)
}

/// Whether `text` is what `key` may give for `item`.
pub open spec fn is_key_of<T, F: Fn(&T) -> String>(key: F, item: T, text: Seq<char>) -> bool {
    exists|k: String| #[trigger] key.ensures((&item,), k) && k@ == text
}

/// Whether `keys` are keys of the items: for each item what `key` may give
/// for it.
pub open spec fn are_keys<T, F: Fn(&T) -> String>(key: F, items: Seq<T>, keys: Seq<Seq<char>>) -> bool {
    &&& keys.len() == items.len()
    &&& forall|i: int| 0 <= i < items.len() ==> is_key_of(key, #[trigger] items[i], keys[i])
}

/// The items in the order of the texts that `key` gives for them; items
/// with the same text stay in the order in which they stand.
pub fn sorted<T, F: Fn(&T) -> String>(items: Vec<T>, key: F) -> (out: Vec<T>)
    requires
        forall|item: &T| #[trigger] key.requires((item,)),
    ensures
        exists|keys: Seq<Seq<char>>| #[trigger]
            are_keys(key, items@, keys) && out@ == items_of(sorted_pairs(paired(keys, items@))),
{
    let mut items = items;
    let ghost all = items@;
    let ghost mut keys: Seq<Seq<char>> = Seq::empty();
    let mut out: Vec<T> = Vec::new();
    let mut out_keys: Vec<Vec<char>> = Vec::new();
    proof {
        assert(all.skip(all.len() as int) =~= Seq::<T>::empty());
        assert(paired(keys, all.skip(all.len() as int)) =~= Seq::<(Seq<char>, T)>::empty());
        assert(paired(char_lists(out_keys@), out@) =~= Seq::<(Seq<char>, T)>::empty());
    }
    while items.len() > 0
        invariant
            forall|item: &T| #[trigger] key.requires((item,)),
            items@ == all.take(items@.len() as int),
            items@.len() <= all.len(),
            keys.len() == all.len() - items@.len(),
            forall|i: int|
                items@.len() <= i < all.len() ==> is_key_of(
                    key,
                    #[trigger] all[i],
                    keys[i - items@.len()],
                ),
            out_keys@.len() == out@.len(),
            paired(char_lists(out_keys@), out@) == sorted_pairs(
                paired(keys, all.skip(items@.len() as int)),
            ),
        decreases items@.len(),
    {
        let ghost before = items@;
        let ghost old_keys = keys;
        let ghost rest = paired(char_lists(out_keys@), out@);
        let item = match items.pop() {
            Some(item) => item,
            None => {
                assert(false);
                return out;
            },
        };
        let given = key(&item);
        assert(is_key_of(key, item, given@));
        let text = chars_of(given.as_str());
        let ghost place_in_all = before.len() - 1;
        assert(item == all[place_in_all]);
        let mut at: usize = 0;
        assert(rest.skip(0) =~= rest);
        while at < out.len() && comes_before(&out_keys[at], &text)
            invariant
                at <= out@.len(),
                out_keys@.len() == out@.len(),
                rest == paired(char_lists(out_keys@), out@),
                put_in(rest, text@, item) == rest.take(at as int) + put_in(
                    rest.skip(at as int),
                    text@,
                    item,
                ),
            decreases out@.len() - at,
        {
            proof {
                let tail = rest.skip(at as int);
                assert(tail[0] == rest[at as int]);
                assert(tail.skip(1) =~= rest.skip(at + 1));
                assert(rest.take(at as int) + (seq![tail[0]] + put_in(tail.skip(1), text@, item))
                    =~= rest.take(at + 1) + put_in(rest.skip(at + 1), text@, item));
            }
            at += 1;
        }
        proof {
            let tail = rest.skip(at as int);
            if at < out@.len() {
                assert(tail[0] == rest[at as int]);
            }
            assert(put_in(tail, text@, item) =~= seq![(text@, item)] + tail);
        }
        out.insert(at, item);
        out_keys.insert(at, text);
        proof {
            keys = seq![text@] + old_keys;
            let now = all.skip(items@.len() as int);
            assert(now[0] == item);
            assert(now.skip(1) =~= all.skip(before.len() as int));
            assert(paired(keys, now).skip(1) =~= paired(old_keys, all.skip(before.len() as int)));
            assert(paired(keys, now)[0] == (text@, item));
            assert(paired(char_lists(out_keys@), out@) =~= rest.take(at as int) + (seq![
                (text@, item),
            ] + rest.skip(at as int)));
            assert(items@ =~= all.take(items@.len() as int));
            assert forall|i: int| items@.len() <= i < all.len() implies is_key_of(
                key,
                #[trigger] all[i],
                keys[i - items@.len()],
            ) by {
                if i > items@.len() {
                    assert(is_key_of(key, all[i], old_keys[i - before.len()]));
                }
            }
        }
    }
    proof {
        assert(all.skip(0) =~= all);
        assert(items_of(paired(char_lists(out_keys@), out@)) =~= out@);
        assert forall|i: int| 0 <= i < all.len() implies is_key_of(
            key,
            #[trigger] all[i],
            keys[i],
        ) by {}
        assert(are_keys(key, all, keys));
    }
    out
}

/// The places of the texts in the order of the texts; texts that are the
/// same stay in the order in which they stand.
pub fn sorted_places(keys: &Vec<String>) -> (order: Vec<usize>)
    ensures
        order@ == items_of(
            sorted_pairs(
                paired(
                    texts(keys@),
                    Seq::new(keys@.len(), |i: int| i as usize),
                ),
            ),
        ),
        forall|j: int| 0 <= j < order@.len() ==> (#[trigger] order@[j]) < keys@.len(),
        order@.len() == keys@.len(),
{
    let ghost key_texts = texts(keys@);
    let ghost all = Seq::new(keys@.len(), |i: int| i as usize);
    let mut out: Vec<usize> = Vec::new();
    let mut out_keys: Vec<Vec<char>> = Vec::new();
    let mut left: usize = keys.len();
    proof {
        assert(paired(key_texts, all).skip(left as int) =~= Seq::<(Seq<char>, usize)>::empty());
        assert(paired(char_lists(out_keys@), out@) =~= Seq::<(Seq<char>, usize)>::empty());
    }
    while left > 0
        invariant
            left <= keys@.len(),
            key_texts == texts(keys@),
            all == Seq::new(keys@.len(), |i: int| i as usize),
            out_keys@.len() == out@.len(),
            out@.len() == keys@.len() - left,
            forall|j: int| 0 <= j < out@.len() ==> (#[trigger] out@[j]) < keys@.len(),
            paired(char_lists(out_keys@), out@) == sorted_pairs(paired(key_texts, all).skip(left as int)),
        decreases left,
    {
        left -= 1;
        let ghost rest = paired(char_lists(out_keys@), out@);
        let text = chars_of(keys[left].as_str());
        let item = left;
        let mut at: usize = 0;
        assert(rest.skip(0) =~= rest);
        while at < out.len() && comes_before(&out_keys[at], &text)
            invariant
                at <= out@.len(),
                out_keys@.len() == out@.len(),
                rest == paired(char_lists(out_keys@), out@),
                put_in(rest, text@, item) == rest.take(at as int) + put_in(
                    rest.skip(at as int),
                    text@,
                    item,
                ),
            decreases out@.len() - at,
        {
            proof {
                let tail = rest.skip(at as int);
                assert(tail[0] == rest[at as int]);
                assert(tail.skip(1) =~= rest.skip(at + 1));
                assert(rest.take(at as int) + (seq![tail[0]] + put_in(tail.skip(1), text@, item))
                    =~= rest.take(at + 1) + put_in(rest.skip(at + 1), text@, item));
            }
            at += 1;
        }
        proof {
            let tail = rest.skip(at as int);
            if at < out@.len() {
                assert(tail[0] == rest[at as int]);
            }
            assert(put_in(tail, text@, item) =~= seq![(text@, item)] + tail);
        }
        out.insert(at, item);
        out_keys.insert(at, text);
        proof {
            let now = paired(key_texts, all).skip(left as int);
            assert(now[0] == (text@, item));
            assert(now.skip(1) =~= paired(key_texts, all).skip(left + 1));
            assert(paired(char_lists(out_keys@), out@) =~= rest.take(at as int) + (seq![
                (text@, item),
            ] + rest.skip(at as int)));
        }
    }
    proof {
        assert(paired(key_texts, all).skip(0) =~= paired(key_texts, all));
        assert(items_of(paired(char_lists(out_keys@), out@)) =~= out@);
    }
    out
}

/// One item of the first list, one of the second, or one of each.
#[derive(Debug, PartialEq, Eq)]
pub enum EitherOrBoth<A, B> {
    Both(A, B),
    Left(A),
    Right(B),
}

/// Two lists walked through side by side until both have ended.
pub struct ZipLongest<'a, A, B> {
    a: &'a [A],
    b: &'a [B],
    at: usize,
}

/// What stands at place `i` of two lists walked through side by side.
pub open spec fn zipped_at<A, B>(a: Seq<A>, b: Seq<B>, i: int) -> Option<EitherOrBoth<A, B>> {
    if 0 <= i < a.len() && i < b.len() {
        Some(EitherOrBoth::Both(a[i], b[i]))
    } else if 0 <= i < a.len() {
        Some(EitherOrBoth::Left(a[i]))
    } else if 0 <= i < b.len() {
        Some(EitherOrBoth::Right(b[i]))
    } else {
        None
    }
}

/// The greater of two numbers.
pub open spec fn greater(x: int, y: int) -> int {
    if x >= y {
        x
    } else {
        y
    }
}

/// Walks through two lists side by side: the walk gives pairs as long as
/// both lists have items, and then the items that the longer one has left.
pub fn zip_longest<'a, A, B>(a: &'a [A], b: &'a [B]) -> (zip: ZipLongest<'a, A, B>)
    ensures
        zip.first() == a@,
        zip.second() == b@,
        zip.place() == 0,
{
    ZipLongest { a, b, at: 0 }
}

impl<'a, A, B> ZipLongest<'a, A, B> {
    /// The first list.
    pub closed spec fn first(&self) -> Seq<A> {
        self.a@
    }

    /// The second list.
    pub closed spec fn second(&self) -> Seq<B> {
        self.b@
    }

    /// The number of steps that the walk has made.
    pub closed spec fn place(&self) -> int {
        self.at as int
    }

    /// The next step of the walk: what stands at its place, if one of the
    /// lists goes that far.
    pub fn next(&mut self) -> (item: Option<EitherOrBoth<&'a A, &'a B>>)
        ensures
            final(self).first() == old(self).first(),
            final(self).second() == old(self).second(),
            match item {
                Some(EitherOrBoth::Both(x, y)) => zipped_at(
                    old(self).first(),
                    old(self).second(),
                    old(self).place(),
                ) == Some(EitherOrBoth::Both(*x, *y)),
                Some(EitherOrBoth::Left(x)) => zipped_at(
                    old(self).first(),
                    old(self).second(),
                    old(self).place(),
                ) == Some(EitherOrBoth::<A, B>::Left(*x)),
                Some(EitherOrBoth::Right(y)) => zipped_at(
                    old(self).first(),
                    old(self).second(),
                    old(self).place(),
                ) == Some(EitherOrBoth::<A, B>::Right(*y)),
                None => zipped_at(old(self).first(), old(self).second(), old(self).place())
                    is None,
            },
            final(self).place() == if item is Some {
                old(self).place() + 1
            } else {
                old(self).place()
            },
    {
        let at = self.at;
        if at < self.a.len() && at < self.b.len() {
            self.at = at + 1;
            Some(EitherOrBoth::Both(&self.a[at], &self.b[at]))
        } else if at < self.a.len() {
            self.at = at + 1;
            Some(EitherOrBoth::Left(&self.a[at]))
        } else if at < self.b.len() {
            self.at = at + 1;
            Some(EitherOrBoth::Right(&self.b[at]))
        } else {
            None
        }
    }

    /// How many steps are left: the number for both bounds.
    pub fn size_hint(&self) -> (hint: (usize, Option<usize>))
        ensures
            hint.0 == greater(
                greater(self.first().len() - self.place(), 0),
                greater(self.second().len() - self.place(), 0),
            ),
            hint.1 == Some(hint.0),
    {
        let left_a = if self.at < self.a.len() {
            self.a.len() - self.at
        } else {
            0
        };
        let left_b = if self.at < self.b.len() {
            self.b.len() - self.at
        } else {
            0
        };
        max_size_hint((left_a, Some(left_a)), (left_b, Some(left_b)))
    }
}

/// Of two pairs of bounds on a number of steps the greater lower bound
/// and, where both have an upper bound, the greater upper bound.
pub fn max_size_hint(a: (usize, Option<usize>), b: (usize, Option<usize>)) -> (hint: (
    usize,
    Option<usize>,
))
    ensures
        hint.0 == greater(a.0 as int, b.0 as int),
        hint.1 == match (a.1, b.1) {
            (Some(x), Some(y)) => Some(greater(x as int, y as int) as usize),
            _ => None,
        },
{
    let (a_lower, a_upper) = a;
    let (b_lower, b_upper) = b;
    let lower = if a_lower >= b_lower {
        a_lower
    } else {
        b_lower
    };
    let upper = match (a_upper, b_upper) {
        (Some(x), Some(y)) => Some(
            if x >= y {
                x
            } else {
                y
            },
        ),
        _ => None,
    };
    (lower, upper)
}

} // verus!
