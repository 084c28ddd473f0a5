//! Splitting a list into consecutive chunks.

use vstd::prelude::*;

verus! {

/// The consecutive chunks of `s`: each has `size` items, but for the last,
/// which may have fewer. `size` is at least one.
pub open spec fn chunks<A>(s: Seq<A>, size: nat) -> Seq<Seq<A>>
    decreases s.len(),
{
    if s.len() == 0 || size == 0 {
        Seq::empty()
    } else if s.len() <= size {
        seq![s]
    } else {
        seq![s.take(size as int)] + chunks(s.skip(size as int), size)
    }
}

/// The lists of `parts` put end to end.
pub open spec fn joined<A>(parts: Seq<Seq<A>>) -> Seq<A>
    decreases parts.len(),
{
    if parts.len() == 0 {
        Seq::empty()
    } else {
        joined(parts.drop_last()) + parts.last()
    }
}

/// Lists put end to end begin with the first list.
pub proof fn lemma_joined_front<A>(head: Seq<A>, rest: Seq<Seq<A>>)
    ensures
        joined(seq![head] + rest) == head + joined(rest),
    decreases rest.len(),
{
    let all = seq![head] + rest;
    if rest.len() == 0 {
        assert(all.drop_last() == Seq::<Seq<A>>::empty());
        assert(all.last() == head);
        assert(joined(all.drop_last()) == Seq::<A>::empty());
        assert(joined(all) == Seq::<A>::empty() + head);
        assert(head + Seq::<A>::empty() == head);
        assert(Seq::<A>::empty() + head == head);
    } else {
        lemma_joined_front(head, rest.drop_last());
        assert(all.drop_last() == seq![head] + rest.drop_last());
        assert(all.last() == rest.last());
        assert((head + joined(rest.drop_last())) + rest.last() == head + (joined(rest.drop_last())
            + rest.last()));
    }
}

/// The chunks of a list, put end to end, are the list.
pub proof fn lemma_chunks_join<A>(s: Seq<A>, size: nat)
    requires
        size > 0,
    ensures
        joined(chunks(s, size)) == s,
    decreases s.len(),
{
    if s.len() == 0 {
    } else if s.len() <= size {
        lemma_joined_front(s, Seq::empty());
        assert(seq![s] + Seq::<Seq<A>>::empty() == seq![s]);
        assert(s + Seq::<A>::empty() == s);
    } else {
        lemma_chunks_join(s.skip(size as int), size);
        lemma_joined_front(s.take(size as int), chunks(s.skip(size as int), size));
        assert(s.take(size as int) + s.skip(size as int) == s);
    }
}

/// The first parts, put end to end, are the start of all parts put end to
/// end.
pub proof fn lemma_joined_prefix<A>(parts: Seq<Seq<A>>, k: int)
    requires
        0 <= k <= parts.len(),
    ensures
        joined(parts.take(k)).len() <= joined(parts).len(),
        k < parts.len() ==> joined(parts.take(k + 1)) == joined(parts.take(k)) + parts[k],
        k < parts.len() ==> joined(parts.take(k)).len() + parts[k].len() <= joined(parts).len(),
    decreases parts.len() - k,
{
    if k == parts.len() {
        assert(parts.take(k) == parts);
    } else {
        lemma_joined_prefix(parts, k + 1);
        assert(parts.take(k + 1).drop_last() == parts.take(k));
        assert(parts.take(k + 1).last() == parts[k]);
    }
}

} // verus!
