//! Finding an entry by its text key in a sequence of keys.
use vstd::prelude::*;

verus! {

/// `i` is the first position of `keys` that holds `key`.
pub open spec fn is_first_at(keys: Seq<Seq<char>>, key: Seq<char>, i: int) -> bool {
    &&& 0 <= i < keys.len()
    &&& keys[i] == key
    &&& forall|k: int| 0 <= k < i ==> keys[k] != key
}

/// The first position of `keys` that holds `key`, if any does.
pub open spec fn position(keys: Seq<Seq<char>>, key: Seq<char>) -> Option<int> {
    if exists|i: int| is_first_at(keys, key, i) {
        Some(choose|i: int| is_first_at(keys, key, i))
    } else {
        None
    }
}

/// A first position is the position.
pub proof fn lemma_position_found(keys: Seq<Seq<char>>, key: Seq<char>, i: int)
    requires
        is_first_at(keys, key, i),
    ensures
        position(keys, key) == Some(i),
{
    let c = choose|c: int| is_first_at(keys, key, c);
    if c < i {
        assert(keys[c] != key);
    } else if i < c {
        assert(keys[i] != key);
    }
}

/// A key that no position holds has no position.
pub proof fn lemma_position_absent(keys: Seq<Seq<char>>, key: Seq<char>)
    requires
        forall|k: int| 0 <= k < keys.len() ==> keys[k] != key,
    ensures
        position(keys, key).is_none(),
{
}

/// What a position says of the keys: either the first holder of the key,
/// or that nothing holds it.
pub proof fn lemma_position(keys: Seq<Seq<char>>, key: Seq<char>)
    ensures
        match position(keys, key) {
            Some(i) => is_first_at(keys, key, i),
            None => forall|k: int| 0 <= k < keys.len() ==> keys[k] != key,
        },
        position(keys, key).is_some() <==> keys.contains(key),
{
    if exists|i: int| is_first_at(keys, key, i) {
    } else {
        assert forall|k: int| 0 <= k < keys.len() implies keys[k] != key by {
            if keys[k] == key {
                lemma_has_first(keys, key, k);
            }
        }
    }
}

/// Where some position up to `k` holds the key, a first one does.
proof fn lemma_has_first(keys: Seq<Seq<char>>, key: Seq<char>, k: int)
    requires
        0 <= k < keys.len(),
        keys[k] == key,
    ensures
        exists|i: int| is_first_at(keys, key, i),
    decreases k,
{
    if forall|j: int| 0 <= j < k ==> keys[j] != key {
        assert(is_first_at(keys, key, k));
    } else {
        let j = choose|j: int| 0 <= j < k && keys[j] == key;
        lemma_has_first(keys, key, j);
    }
}

/// The keys of a list of texts.
pub open spec fn texts(v: Seq<String>) -> Seq<Seq<char>> {
    Seq::new(v.len(), |i: int| v[i]@)
}

/// The first position of `list` whose text equals `key`.
pub fn find_text(list: &Vec<String>, key: &String) -> (found: Option<usize>)
    ensures
        match found {
            Some(i) => position(texts(list@), key@) == Some(i as int),
            None => position(texts(list@), key@).is_none(),
        },
{
    let mut i: usize = 0;
    while i < list.len()
        invariant
            i <= list.len(),
            forall|k: int| 0 <= k < i ==> texts(list@)[k] != key@,
        decreases list.len() - i,
    {
        if list[i] == *key {
            proof {
                lemma_position_found(texts(list@), key@, i as int);
            }
            return Some(i);
        }
        i += 1;
    }
    proof {
        lemma_position_absent(texts(list@), key@);
    }
    None
}

/// Removing a position from a sequence without repeats leaves none.
pub proof fn lemma_remove_keeps_distinct(s: Seq<Seq<char>>, i: int)
    requires
        s.no_duplicates(),
        0 <= i < s.len(),
    ensures
        s.remove(i).no_duplicates(),
        !s.remove(i).contains(s[i]),
{
    let r = s.remove(i);
    assert forall|a: int, b: int| 0 <= a < r.len() && 0 <= b < r.len() && a != b implies r[a]
        != r[b] by {
        let a0 = if a < i { a } else { a + 1 };
        let b0 = if b < i { b } else { b + 1 };
        assert(r[a] == s[a0] && r[b] == s[b0]);
    }
    assert forall|a: int| 0 <= a < r.len() implies r[a] != s[i] by {
        let a0 = if a < i { a } else { a + 1 };
        assert(r[a] == s[a0]);
    }
}

} // verus!
