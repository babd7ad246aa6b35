//! Facts about sequences that several parts of the library use.

use vstd::prelude::*;

verus! {

/// Membership in a sequence with one more item at its end.
pub proof fn lemma_push_membership<T>(s: Seq<T>, x: T)
    ensures
        forall|n: T| s.push(x).contains(n) <==> (s.contains(n) || n == x),
        !s.contains(x) && s.no_duplicates() ==> s.push(x).no_duplicates(),
{
    let longer = s.push(x);
    assert forall|n: T| longer.contains(n) <==> (s.contains(n) || n == x) by {
        if s.contains(n) {
            let j = choose|j: int| 0 <= j < s.len() && s[j] == n;
            assert(longer[j] == n);
        }
        if n == x {
            assert(longer[longer.len() - 1] == n);
        }
        if longer.contains(n) && n != x {
            let j = choose|j: int| 0 <= j < longer.len() && longer[j] == n;
            assert(s[j] == n);
        }
    }
}

/// Different numbers from zero up to a bound are no more than the bound.
pub proof fn lemma_few_below(numbers: Seq<int>, bound: int)
    requires
        0 <= bound,
        numbers.no_duplicates(),
        forall|i: int| 0 <= i < numbers.len() ==> 0 <= #[trigger] numbers[i] < bound,
    ensures
        numbers.len() <= bound,
    decreases bound,
{
    if numbers.len() > 0 {
        assert(0 <= numbers[0] < bound);
        let top = bound - 1;
        if exists|k: int| 0 <= k < numbers.len() && numbers[k] == top {
            let k = choose|k: int| 0 <= k < numbers.len() && numbers[k] == top;
            let rest = numbers.remove(k);
            assert forall|i: int| 0 <= i < rest.len() implies 0 <= #[trigger] rest[i] < top by {
                if i < k {
                    assert(rest[i] == numbers[i]);
                } else {
                    assert(rest[i] == numbers[i + 1]);
                }
            }
            assert(rest.no_duplicates()) by {
                assert forall|a: int, b: int| 0 <= a < rest.len() && 0 <= b < rest.len() && a
                    != b implies rest[a] != rest[b] by {
                    let x = if a < k {
                        a
                    } else {
                        a + 1
                    };
                    let y = if b < k {
                        b
                    } else {
                        b + 1
                    };
                    assert(rest[a] == numbers[x] && rest[b] == numbers[y]);
                }
            }
            lemma_few_below(rest, top);
        } else {
            assert forall|i: int| 0 <= i < numbers.len() implies 0 <= #[trigger] numbers[i]
                < top by {}
            lemma_few_below(numbers, top);
        }
    }
}

} // verus!
