//! Sequences without repetition: the order in which values are first seen.
//! Also a few operations on vectors of numbers that the analyses share.

use vstd::prelude::*;

verus! {

/// The values of `s` in the order in which each is first seen.
pub open spec fn first_occurrences<T>(s: Seq<T>) -> Seq<T>
    decreases s.len(),
{
    if s.len() == 0 {
        Seq::empty()
    } else {
        let earlier = first_occurrences(s.drop_last());
        if earlier.contains(s.last()) {
            earlier
        } else {
            earlier.push(s.last())
        }
    }
}

/// Seeing one more value either changes nothing or appends that value.
pub proof fn lemma_first_occurrences_push<T>(s: Seq<T>, x: T)
    ensures
        first_occurrences(s.push(x)) == if first_occurrences(s).contains(x) {
            first_occurrences(s)
        } else {
            first_occurrences(s).push(x)
        },
{
    assert(s.push(x).drop_last() =~= s);
    assert(s.push(x).last() == x);
}

/// The first occurrences hold exactly the values of the sequence, each once.
pub proof fn lemma_first_occurrences_set<T>(s: Seq<T>)
    ensures
        first_occurrences(s).no_duplicates(),
        forall|x: T| first_occurrences(s).contains(x) <==> s.contains(x),
        first_occurrences(s).len() <= s.len(),
    decreases s.len(),
{
    if s.len() > 0 {
        let front = s.drop_last();
        let earlier = first_occurrences(front);
        let whole = first_occurrences(s);
        lemma_first_occurrences_set(front);
        assert(front.len() == s.len() - 1);
        assert(forall|k: int| 0 <= k < front.len() ==> front[k] == s[k]);
        assert forall|x: T| s.contains(x) implies whole.contains(x) by {
            let i = choose|i: int| 0 <= i < s.len() && s[i] == x;
            if i < s.len() - 1 {
                assert(front[i] == x);
                assert(front.contains(x));
                assert(earlier.contains(x));
                let k = choose|k: int| 0 <= k < earlier.len() && earlier[k] == x;
                assert(whole[k] == x);
            } else if earlier.contains(x) {
            } else {
                assert(whole[earlier.len() as int] == x);
            }
        }
        assert forall|x: T| whole.contains(x) implies s.contains(x) by {
            let i = choose|i: int| 0 <= i < whole.len() && whole[i] == x;
            if i < earlier.len() {
                assert(earlier[i] == x);
                assert(earlier.contains(x));
                assert(front.contains(x));
                let j = choose|j: int| 0 <= j < front.len() && front[j] == x;
                assert(s[j] == x);
            } else {
                assert(s[s.len() - 1] == x);
            }
        }
    }
}

/// What was first seen in a prefix is first seen in the whole, in the same
/// places.
pub proof fn lemma_first_occurrences_prefix<T>(a: Seq<T>, b: Seq<T>)
    ensures
        first_occurrences(a).len() <= first_occurrences(a + b).len(),
        first_occurrences(a + b).subrange(0, first_occurrences(a).len() as int)
            == first_occurrences(a),
    decreases b.len(),
{
    if b.len() == 0 {
        assert(a + b =~= a);
        assert(first_occurrences(a).subrange(0, first_occurrences(a).len() as int)
            =~= first_occurrences(a));
    } else {
        assert((a + b).drop_last() =~= a + b.drop_last());
        lemma_first_occurrences_prefix(a, b.drop_last());
        let whole = first_occurrences(a + b);
        let shorter = first_occurrences(a + b.drop_last());
        let n = first_occurrences(a).len() as int;
        assert(whole.subrange(0, n) =~= shorter.subrange(0, n));
    }
}

/// More values than a set has room for cannot all be different.
pub proof fn lemma_pigeonhole<T>(s: Seq<T>, room: Set<T>)
    requires
        room.finite(),
        s.len() > room.len(),
        forall|i: int| 0 <= i < s.len() ==> room.contains(#[trigger] s[i]),
    ensures
        exists|i: int, j: int| 0 <= i < j < s.len() && s[i] == s[j],
{
    if s.no_duplicates() {
        s.unique_seq_to_set();
        assert(s.to_set().subset_of(room)) by {
            assert forall|x: T| s.to_set().contains(x) implies room.contains(x) by {
                let i = choose|i: int| 0 <= i < s.len() && s[i] == x;
                assert(room.contains(s[i]));
            }
        }
        vstd::set_lib::lemma_len_subset(s.to_set(), room);
        assert(false);
    } else {
        let (i, j) = choose|i: int, j: int|
            0 <= i < s.len() && 0 <= j < s.len() && i != j && s[i] == s[j];
        if i < j {
            assert(0 <= i < j < s.len() && s[i] == s[j]);
        } else {
            assert(0 <= j < i < s.len() && s[j] == s[i]);
        }
    }
}

/// Different numbers below `n` are at most `n` many.
pub proof fn lemma_distinct_below(s: Seq<usize>, n: nat)
    requires
        s.no_duplicates(),
        forall|i: int| 0 <= i < s.len() ==> (#[trigger] s[i]) < n,
    ensures
        s.len() <= n,
{
    if s.len() > n {
        let wide = Seq::new(s.len(), |i: int| s[i] as int);
        vstd::set_lib::lemma_int_range(0, n as int);
        lemma_pigeonhole(wide, vstd::set_lib::set_int_range(0, n as int));
        let (i, j) = choose|i: int, j: int| 0 <= i < j < wide.len() && wide[i] == wide[j];
        assert(s[i] == s[j]);
    }
}

/// The items in the opposite order.
pub fn reversed(items: &Vec<usize>) -> (turned: Vec<usize>)
    ensures
        turned@ == items@.reverse(),
{
    let mut turned: Vec<usize> = Vec::new();
    let mut i: usize = items.len();
    while i > 0
        invariant
            i <= items.len(),
            turned.len() == items.len() - i,
            forall|k: int| 0 <= k < turned.len() ==> turned[k] == items[items.len() - 1 - k],
        decreases i,
    {
        i = i - 1;
        turned.push(items[i]);
    }
    assert(turned@ =~= items@.reverse());
    turned
}

/// The first position at which `items` holds `x`.
pub fn position_in(items: &Vec<usize>, x: usize) -> (found: Option<usize>)
    ensures
        match found {
            Some(p) => p < items.len() && items[p as int] == x && forall|i: int|
                0 <= i < p ==> items[i] != x,
            None => !items@.contains(x),
        },
{
    let mut i: usize = 0;
    while i < items.len()
        invariant
            i <= items.len(),
            forall|k: int| 0 <= k < i ==> items[k] != x,
        decreases items.len() - i,
    {
        if items[i] == x {
            return Some(i);
        }
        i = i + 1;
    }
    None
}

/// The items from position `start` on.
pub fn tail_from(items: &Vec<usize>, start: usize) -> (tail: Vec<usize>)
    requires
        start <= items.len(),
    ensures
        tail@ == items@.subrange(start as int, items.len() as int),
{
    let mut tail: Vec<usize> = Vec::new();
    let mut i: usize = start;
    while i < items.len()
        invariant
            start <= i <= items.len(),
            tail@ == items@.subrange(start as int, i as int),
        decreases items.len() - i,
    {
        tail.push(items[i]);
        assert(tail@ =~= items@.subrange(start as int, i + 1));
        i = i + 1;
    }
    tail
}

/// A vector of `n` copies of `value`.
pub fn filled<T: Copy>(n: usize, value: T) -> (v: Vec<T>)
    ensures
        v.len() == n,
        forall|i: int| 0 <= i < n ==> v[i] == value,
{
    let mut v: Vec<T> = Vec::new();
    let mut i: usize = 0;
    while i < n
        invariant
            i <= n,
            v.len() == i,
            forall|k: int| 0 <= k < i ==> v[k] == value,
        decreases n - i,
    {
        v.push(value);
        i = i + 1;
    }
    v
}

} // verus!
