//! Sums over lists of numbers.

use vstd::prelude::*;

verus! {

/// The sum of the numbers of `s`.
pub open spec fn sum(s: Seq<int>) -> int
    decreases s.len(),
{
    if s.len() == 0 {
        0
    } else {
        sum(s.drop_last()) + s.last()
    }
}

/// Two lists sum to the sums of both.
pub proof fn lemma_sum_concat(a: Seq<int>, b: Seq<int>)
    ensures
        sum(a + b) == sum(a) + sum(b),
    decreases b.len(),
{
    if b.len() == 0 {
        assert(a + b == a);
    } else {
        lemma_sum_concat(a, b.drop_last());
        assert((a + b).drop_last() == a + b.drop_last());
    }
}

/// Putting a number into a list adds it to the sum.
pub proof fn lemma_sum_insert(s: Seq<int>, p: int, x: int)
    requires
        0 <= p <= s.len(),
    ensures
        sum(s.insert(p, x)) == sum(s) + x,
{
    let head = s.take(p);
    let tail = s.skip(p);
    assert(s == head + tail);
    assert(s.insert(p, x) =~= head.push(x) + tail);
    assert(head.push(x).drop_last() == head);
    lemma_sum_concat(head, tail);
    lemma_sum_concat(head.push(x), tail);
}

/// Changing a number of a list changes the sum by as much.
pub proof fn lemma_sum_update(s: Seq<int>, p: int, x: int)
    requires
        0 <= p < s.len(),
    ensures
        sum(s.update(p, x)) == sum(s) - s[p] + x,
    decreases s.len(),
{
    let after = s.update(p, x);
    if p < s.len() - 1 {
        lemma_sum_update(s.drop_last(), p, x);
        assert(after.drop_last() == s.drop_last().update(p, x));
    } else {
        assert(after.drop_last() == s.drop_last());
    }
}

/// The sum of the first numbers and the next one is the sum of one more.
pub proof fn lemma_sum_step(s: Seq<int>, i: int)
    requires
        0 <= i < s.len(),
    ensures
        sum(s.take(i + 1)) == sum(s.take(i)) + s[i],
{
    assert(s.take(i + 1).drop_last() == s.take(i));
}

/// Numbers that are at least zero sum to no less than any of their first
/// ones do.
pub proof fn lemma_sum_grows(s: Seq<int>, i: int)
    requires
        0 <= i <= s.len(),
        forall|j: int| 0 <= j < s.len() ==> #[trigger] s[j] >= 0,
    ensures
        0 <= sum(s.take(i)) <= sum(s),
    decreases s.len() - i,
{
    if i == s.len() {
        assert(s.take(i) == s);
        lemma_sum_non_negative(s);
    } else {
        lemma_sum_grows(s, i + 1);
        lemma_sum_step(s, i);
        lemma_sum_non_negative(s.take(i));
    }
}

/// Numbers that are at least zero sum to at least zero.
pub proof fn lemma_sum_non_negative(s: Seq<int>)
    requires
        forall|j: int| 0 <= j < s.len() ==> #[trigger] s[j] >= 0,
    ensures
        sum(s) >= 0,
    decreases s.len(),
{
    if s.len() > 0 {
        assert forall|j: int| 0 <= j < s.len() - 1 implies #[trigger] s.drop_last()[j] >= 0 by {
            assert(s[j] >= 0);
        }
        lemma_sum_non_negative(s.drop_last());
        assert(s[s.len() - 1] >= 0);
    }
}

/// Amounts that are each within twice ten to the power 30 units for every order
/// counted sum to within as much for all orders.
pub proof fn lemma_sum_within(amounts: Seq<int>, orders: Seq<int>)
    requires
        amounts.len() == orders.len(),
        forall|j: int|
            0 <= j < amounts.len() ==> -(2_000_000_000_000_000_000_000_000_000_000_000_000 * #[trigger] orders[j])
                <= amounts[j] <= 2_000_000_000_000_000_000_000_000_000_000_000_000 * orders[j],
    ensures
        -(2_000_000_000_000_000_000_000_000_000_000_000_000 * sum(orders)) <= sum(amounts) <= 2_000_000_000_000_000_000_000_000_000_000_000_000
            * sum(orders),
    decreases amounts.len(),
{
    if amounts.len() > 0 {
        let a = amounts.drop_last();
        let o = orders.drop_last();
        assert forall|j: int| 0 <= j < a.len() implies -(2_000_000_000_000_000_000_000_000_000_000_000_000
            * #[trigger] o[j]) <= a[j] <= 2_000_000_000_000_000_000_000_000_000_000_000_000 * o[j] by {
            assert(orders[j] == o[j]);
        }
        lemma_sum_within(a, o);
        let last = amounts.len() - 1;
        assert(-(2_000_000_000_000_000_000_000_000_000_000_000_000 * orders[last]) <= amounts[last]
            <= 2_000_000_000_000_000_000_000_000_000_000_000_000 * orders[last]);
    }
}

} // verus!
