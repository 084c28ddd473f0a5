//! Lists of texts kept in ascending order without repeats.

use vstd::hash_map::StringHashMap;
use vstd::prelude::*;
use vstd::string::*;
use crate::text::{
    lemma_lex_asymmetric, lemma_lex_total, lemma_lex_transitive, lex_less, text_less,
};

verus! {

/// The texts of `list`.
pub open spec fn texts(list: Seq<String>) -> Seq<Seq<char>> {
    list.map_values(|s: String| s@)
}

/// Whether each of `keys` comes before the next in lexicographic order: the
/// keys ascend and none occurs twice.
pub open spec fn ascending(keys: Seq<Seq<char>>) -> bool {
    forall|i: int, j: int| 0 <= i < j < keys.len() ==> lex_less(#[trigger] keys[i], #[trigger] keys[j])
}

/// Whether `p` parts `keys` into those that come before `key` and the rest.
pub open spec fn parts_at(keys: Seq<Seq<char>>, key: Seq<char>, p: int) -> bool {
    &&& 0 <= p <= keys.len()
    &&& forall|j: int| 0 <= j < p ==> lex_less(#[trigger] keys[j], key)
    &&& forall|j: int| p <= j < keys.len() ==> !lex_less(#[trigger] keys[j], key)
}

/// The place of `key` among the ascending `keys`: the number of keys that
/// come before it.
pub open spec fn key_position(keys: Seq<Seq<char>>, key: Seq<char>) -> int
    decreases keys.len(),
{
    if keys.len() == 0 {
        0
    } else if lex_less(keys.last(), key) {
        keys.len() as int
    } else {
        key_position(keys.drop_last(), key)
    }
}

/// Whether `key` is among the ascending `keys`.
pub open spec fn has_key(keys: Seq<Seq<char>>, key: Seq<char>) -> bool {
    key_position(keys, key) < keys.len() && keys[key_position(keys, key)] == key
}

/// The ascending `keys` with `key` put in its place, unless it is there.
pub open spec fn with_key(keys: Seq<Seq<char>>, key: Seq<char>) -> Seq<Seq<char>> {
    if has_key(keys, key) {
        keys
    } else {
        keys.insert(key_position(keys, key), key)
    }
}

/// The texts of `values` in ascending order, each once.
pub open spec fn sorted_distinct(values: Seq<Seq<char>>) -> Seq<Seq<char>>
    decreases values.len(),
{
    if values.len() == 0 {
        Seq::empty()
    } else {
        with_key(sorted_distinct(values.drop_last()), values.last())
    }
}

/// The place of a key parts the keys into those before it and the rest.
pub proof fn lemma_key_position(keys: Seq<Seq<char>>, key: Seq<char>)
    requires
        ascending(keys),
    ensures
        parts_at(keys, key, key_position(keys, key)),
    decreases keys.len(),
{
    if keys.len() > 0 {
        let front = keys.drop_last();
        assert(ascending(front)) by {
            assert forall|i: int, j: int| 0 <= i < j < front.len() implies lex_less(
                #[trigger] front[i],
                #[trigger] front[j],
            ) by {
                assert(lex_less(keys[i], keys[j]));
            }
        }
        if lex_less(keys.last(), key) {
            assert forall|j: int| 0 <= j < keys.len() implies lex_less(#[trigger] keys[j], key) by {
                if j < keys.len() - 1 {
                    assert(lex_less(keys[j], keys[keys.len() - 1]));
                    lemma_lex_transitive(keys[j], keys.last(), key);
                }
            }
        } else {
            lemma_key_position(front, key);
            let p = key_position(front, key);
            assert forall|j: int| 0 <= j < p implies lex_less(#[trigger] keys[j], key) by {
                assert(lex_less(front[j], key));
            }
            assert forall|j: int| p <= j < keys.len() implies !lex_less(#[trigger] keys[j], key) by {
                if j < front.len() {
                    assert(!lex_less(front[j], key));
                }
            }
        }
    }
}

/// Only the place of a key parts the keys so.
pub proof fn lemma_key_position_unique(keys: Seq<Seq<char>>, key: Seq<char>, q: int)
    requires
        ascending(keys),
        parts_at(keys, key, q),
    ensures
        key_position(keys, key) == q,
{
    lemma_key_position(keys, key);
    let p = key_position(keys, key);
    if p < q {
        assert(lex_less(keys[p], key));
    } else if q < p {
        assert(lex_less(keys[q], key));
    }
}

/// A key is among ascending keys exactly when some key equals it.
pub proof fn lemma_has_key(keys: Seq<Seq<char>>, key: Seq<char>)
    requires
        ascending(keys),
    ensures
        has_key(keys, key) <==> exists|i: int| 0 <= i < keys.len() && #[trigger] keys[i] == key,
{
    lemma_key_position(keys, key);
    let p = key_position(keys, key);
    if exists|i: int| 0 <= i < keys.len() && #[trigger] keys[i] == key {
        let i = choose|i: int| 0 <= i < keys.len() && #[trigger] keys[i] == key;
        lemma_lex_asymmetric(key, key);
        if i < p {
            assert(lex_less(keys[i], key));
        } else if i > p {
            assert(lex_less(keys[p], keys[i]));
        }
    }
}

/// Among ascending keys, each key stands at its own place.
pub proof fn lemma_key_at(keys: Seq<Seq<char>>, i: int)
    requires
        ascending(keys),
        0 <= i < keys.len(),
    ensures
        key_position(keys, keys[i]) == i,
        has_key(keys, keys[i]),
{
    let key = keys[i];
    assert(parts_at(keys, key, i)) by {
        assert forall|j: int| 0 <= j < i implies lex_less(#[trigger] keys[j], key) by {}
        assert forall|j: int| i <= j < keys.len() implies !lex_less(#[trigger] keys[j], key) by {
            lemma_lex_asymmetric(key, keys[j]);
            if j > i {
                assert(lex_less(keys[i], keys[j]));
            }
        }
    }
    lemma_key_position_unique(keys, key, i);
}

/// Putting a key in its place keeps the keys ascending, and the key then
/// stands where its place was.
pub proof fn lemma_with_key(keys: Seq<Seq<char>>, key: Seq<char>)
    requires
        ascending(keys),
    ensures
        ascending(with_key(keys, key)),
        has_key(with_key(keys, key), key),
        key_position(with_key(keys, key), key) == key_position(keys, key),
{
    lemma_key_position(keys, key);
    let p = key_position(keys, key);
    let after = with_key(keys, key);
    if !has_key(keys, key) {
        assert forall|i: int, j: int| 0 <= i < j < after.len() implies lex_less(
            #[trigger] after[i],
            #[trigger] after[j],
        ) by {
            if j < p {
                assert(lex_less(keys[i], keys[j]));
            } else if j == p {
                assert(lex_less(keys[i], key));
            } else if i < p {
                assert(after[j] == keys[j - 1]);
                if i < j - 1 {
                    assert(lex_less(keys[i], keys[j - 1]));
                }
            } else if i == p {
                assert(after[j] == keys[j - 1]);
                assert(!lex_less(keys[j - 1], key));
                if j - 1 > p {
                    assert(lex_less(keys[p], keys[j - 1]));
                    lemma_lex_total(keys[p], key);
                    if keys[p] != key {
                        lemma_lex_transitive(key, keys[p], keys[j - 1]);
                    }
                } else {
                    lemma_lex_total(keys[p], key);
                }
            } else {
                assert(after[i] == keys[i - 1] && after[j] == keys[j - 1]);
                assert(lex_less(keys[i - 1], keys[j - 1]));
            }
        }
        assert(parts_at(after, key, p)) by {
            lemma_lex_asymmetric(key, key);
            assert forall|j: int| p <= j < after.len() implies !lex_less(#[trigger] after[j], key) by {
                if j > p {
                    assert(after[j] == keys[j - 1]);
                }
            }
        }
        lemma_key_position_unique(after, key, p);
    }
}

/// With a key put in its place, the keys are those that were there and that
/// key.
pub proof fn lemma_with_key_members(keys: Seq<Seq<char>>, key: Seq<char>, x: Seq<char>)
    requires
        ascending(keys),
    ensures
        with_key(keys, key).contains(x) <==> keys.contains(x) || x == key,
{
    lemma_key_position(keys, key);
    lemma_has_key(keys, key);
    let p = key_position(keys, key);
    let after = with_key(keys, key);
    if has_key(keys, key) {
        assert(keys[p] == key);
    } else {
        assert(after[p] == key);
        if keys.contains(x) {
            let i = choose|i: int| 0 <= i < keys.len() && keys[i] == x;
            if i < p {
                assert(after[i] == x);
            } else {
                assert(after[i + 1] == x);
            }
        }
        if after.contains(x) {
            let j = choose|j: int| 0 <= j < after.len() && after[j] == x;
            if j < p {
                assert(keys[j] == x);
            } else if j > p {
                assert(keys[j - 1] == x);
            }
        }
    }
}

/// Sorted distinct texts ascend, so that none occurs twice, and they are
/// the texts of the values: none is left out and none is added.
pub proof fn lemma_sorted_distinct(values: Seq<Seq<char>>)
    ensures
        ascending(sorted_distinct(values)),
        forall|x: Seq<char>| #[trigger] sorted_distinct(values).contains(x) <==> values.contains(x),
    decreases values.len(),
{
    if values.len() > 0 {
        let front = values.drop_last();
        lemma_sorted_distinct(front);
        lemma_with_key(sorted_distinct(front), values.last());
        assert forall|x: Seq<char>| #[trigger]
            sorted_distinct(values).contains(x) <==> values.contains(x) by {
            lemma_with_key_members(sorted_distinct(front), values.last(), x);
            if values.contains(x) {
                let i = choose|i: int| 0 <= i < values.len() && values[i] == x;
                if i < front.len() {
                    assert(front[i] == x);
                }
            }
            if front.contains(x) {
                let i = choose|i: int| 0 <= i < front.len() && front[i] == x;
                assert(values[i] == x);
            }
            if x == values.last() {
                assert(values[values.len() - 1] == x);
            }
        }
    }
}

/// Finds the place of `key` among the ascending texts of `list`.
pub fn find_position(list: &Vec<String>, key: &str) -> (p: usize)
    requires
        ascending(texts(list@)),
    ensures
        p == key_position(texts(list@), key@),
        p <= list@.len(),
{
    let ghost keys = texts(list@);
    let mut low: usize = 0;
    let mut high: usize = list.len();
    while low < high
        invariant
            low <= high <= list.len(),
            keys == texts(list@),
            ascending(keys),
            forall|j: int| 0 <= j < low ==> lex_less(#[trigger] keys[j], key@),
            forall|j: int| high <= j < keys.len() ==> !lex_less(#[trigger] keys[j], key@),
        decreases high - low,
    {
        let mid = low + (high - low) / 2;
        if text_less(list[mid].as_str(), key) {
            proof {
                assert forall|j: int| 0 <= j < mid + 1 implies lex_less(#[trigger] keys[j], key@) by {
                    if j < mid {
                        assert(lex_less(keys[j], keys[mid as int]));
                        lemma_lex_transitive(keys[j], keys[mid as int], key@);
                    }
                }
            }
            low = mid + 1;
        } else {
            proof {
                assert forall|j: int| mid <= j < keys.len() implies !lex_less(
                    #[trigger] keys[j],
                    key@,
                ) by {
                    if j > mid && lex_less(keys[j], key@) {
                        assert(lex_less(keys[mid as int], keys[j]));
                        lemma_lex_transitive(keys[mid as int], keys[j], key@);
                    }
                }
            }
            high = mid;
        }
    }
    proof {
        lemma_key_position_unique(keys, key@, low as int);
    }
    low
}

/// Texts in ascending order, each once, with an index that tells at once
/// whether a text is among them.
pub struct TextSet {
    list: Vec<String>,
    seen: StringHashMap<bool>,
}

impl View for TextSet {
    type V = Seq<Seq<char>>;

    closed spec fn view(&self) -> Seq<Seq<char>> {
        texts(self.list@)
    }
}

impl TextSet {
    #[verifier::type_invariant]
    spec fn indexed(self) -> bool {
        &&& ascending(texts(self.list@))
        &&& forall|x: Seq<char>| #[trigger]
            self.seen@.contains_key(x) <==> texts(self.list@).contains(x)
    }

    /// A set without texts.
    pub fn new() -> (set: TextSet)
        ensures
            set@ == Seq::<Seq<char>>::empty(),
    {
        let set = TextSet { list: Vec::new(), seen: StringHashMap::new() };
        assert(texts(set.list@) =~= Seq::<Seq<char>>::empty());
        set
    }

    /// Puts `key` in its place among the texts, unless it is there.
    pub fn insert(&mut self, key: &str)
        ensures
            final(self)@ == with_key(old(self)@, key@),
    {
        let mut taken = TextSet::new();
        std::mem::swap(self, &mut taken);
        proof {
            use_type_invariant(&taken);
        }
        let TextSet { mut list, mut seen } = taken;
        let ghost keys = texts(list@);
        let ghost index = seen@;
        proof {
            lemma_has_key(keys, key@);
            lemma_with_key(keys, key@);
        }
        if !seen.contains_key(key) {
            insert_sorted(&mut list, key);
            seen.insert(String::from_str(key), true);
            proof {
                assert forall|x: Seq<char>| #[trigger]
                    seen@.contains_key(x) <==> texts(list@).contains(x) by {
                    lemma_with_key_members(keys, key@, x);
                    assert(index.contains_key(x) <==> keys.contains(x));
                }
            }
        }
        *self = TextSet { list, seen };
    }

    /// The texts, in ascending order.
    pub fn into_vec(self) -> (list: Vec<String>)
        ensures
            texts(list@) == self@,
            ascending(texts(list@)),
    {
        proof {
            use_type_invariant(&self);
        }
        self.list
    }
}

/// Puts `key` in its place in the ascending `list`, unless it is there.
pub fn insert_sorted(list: &mut Vec<String>, key: &str)
    requires
        ascending(texts(old(list)@)),
    ensures
        texts(final(list)@) == with_key(texts(old(list)@), key@),
        ascending(texts(final(list)@)),
{
    let p = find_position(list, key);
    let ghost keys = texts(list@);
    proof {
        lemma_with_key(keys, key@);
    }
    let present = p < list.len() && crate::text::same_text(list[p].as_str(), key);
    if !present {
        list.insert(p, String::from_str(key));
        assert(texts(list@) =~= keys.insert(p as int, key@));
    }
}

} // verus!
