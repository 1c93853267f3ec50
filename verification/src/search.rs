//! Literal substring search over sequences of characters.

use vstd::prelude::*;

verus! {

/// `key` stands in `text` at offset `at`.
pub open spec fn occurs_at(text: Seq<char>, key: Seq<char>, at: int) -> bool {
    &&& 0 <= at
    &&& at + key.len() <= text.len()
    &&& text.subrange(at, at + key.len()) =~= key
}

/// `key` is a contiguous substring of `text`.
pub open spec fn occurs(text: Seq<char>, key: Seq<char>) -> bool {
    exists|at: int| occurs_at(text, key, at)
}

/// `at` is the offset of the first occurrence of `key` in `text`.
pub open spec fn is_leftmost(text: Seq<char>, key: Seq<char>, at: int) -> bool {
    &&& occurs_at(text, key, at)
    &&& forall|before: int| before < at ==> !occurs_at(text, key, before)
}

/// The offset of the first occurrence of `key` in `text`, where there is one.
pub open spec fn leftmost(text: Seq<char>, key: Seq<char>) -> int {
    choose|at: int| is_leftmost(text, key, at)
}

/// An occurrence at `at` means that there is a first one, at or before `at`.
pub proof fn lemma_leftmost_exists(text: Seq<char>, key: Seq<char>, at: int)
    requires
        occurs_at(text, key, at),
    ensures
        is_leftmost(text, key, leftmost(text, key)),
        leftmost(text, key) <= at,
    decreases at,
{
    if exists|before: int| before < at && occurs_at(text, key, before) {
        let before = choose|before: int| before < at && occurs_at(text, key, before);
        lemma_leftmost_exists(text, key, before);
    } else {
        assert(is_leftmost(text, key, at));
    }
}

/// A key that occurs has a first occurrence, and it lies inside the text.
pub proof fn lemma_leftmost_of_occurring(text: Seq<char>, key: Seq<char>)
    requires
        occurs(text, key),
    ensures
        is_leftmost(text, key, leftmost(text, key)),
        0 <= leftmost(text, key),
        leftmost(text, key) + key.len() <= text.len(),
{
    let at = choose|at: int| occurs_at(text, key, at);
    lemma_leftmost_exists(text, key, at);
}

/// There is only one first occurrence.
pub proof fn lemma_leftmost_unique(text: Seq<char>, key: Seq<char>, at: int)
    requires
        is_leftmost(text, key, at),
    ensures
        leftmost(text, key) == at,
{
    let chosen = leftmost(text, key);
    assert(is_leftmost(text, key, chosen));
    if chosen < at {
        assert(!occurs_at(text, key, chosen));
    } else if at < chosen {
        assert(!occurs_at(text, key, at));
    }
}

/// Occurrences in a suffix are the occurrences of the whole text that start
/// inside that suffix.
pub proof fn lemma_occurs_at_in_suffix(text: Seq<char>, key: Seq<char>, from: int, at: int)
    requires
        0 <= from <= text.len(),
    ensures
        occurs_at(text.skip(from), key, at) <==> (0 <= at && occurs_at(text, key, from + at)),
{
    if 0 <= at && at + key.len() <= text.len() - from {
        assert(text.skip(from).subrange(at, at + key.len()) =~= text.subrange(
            from + at,
            from + at + key.len(),
        ));
    }
}

/// Whether `key` stands in `text` at offset `at`.
pub fn matches_at(text: &Vec<char>, key: &Vec<char>, at: usize) -> (found: bool)
    ensures
        found == occurs_at(text@, key@, at as int),
{
    if key.len() > text.len() || at > text.len() - key.len() {
        return false;
    }
    let mut i: usize = 0;
    while i < key.len()
        invariant
            i <= key.len(),
            at + key.len() <= text.len(),
            text@.subrange(at as int, at + i) =~= key@.take(i as int),
        decreases key.len() - i,
    {
        if text[at + i] != key[i] {
            assert(text@.subrange(at as int, at + key.len())[i as int] != key@[i as int]);
            return false;
        }
        i += 1;
        assert(text@.subrange(at as int, at + i) =~= key@.take(i as int)) by {
            assert(text@.subrange(at as int, at + i - 1) == key@.take(i - 1));
            assert forall|j: int| 0 <= j < i implies text@.subrange(at as int, at + i)[j]
                == key@.take(i as int)[j] by {
                if j < i - 1 {
                    assert(text@.subrange(at as int, at + i - 1)[j] == key@.take(i - 1)[j]);
                }
            }
        }
    }
    assert(key@.take(key.len() as int) =~= key@);
    true
}

/// The offset of the first occurrence of `key` in `text` that starts at
/// `from` or later.
pub fn find_from(text: &Vec<char>, key: &Vec<char>, from: usize) -> (found: Option<usize>)
    ensures
        match found {
            Some(at) => {
                &&& from <= at
                &&& occurs_at(text@, key@, at as int)
                &&& forall|before: int| from <= before < at ==> !occurs_at(text@, key@, before)
            },
            None => forall|at: int| from <= at ==> !occurs_at(text@, key@, at),
        },
{
    if key.len() > text.len() {
        return None;
    }
    let last: usize = text.len() - key.len();
    let mut at: usize = from;
    while at <= last
        invariant
            from <= at,
            last == text.len() - key.len(),
            forall|before: int| from <= before < at ==> !occurs_at(text@, key@, before),
        decreases last + 1 - at,
    {
        if matches_at(text, key, at) {
            return Some(at);
        }
        at += 1;
    }
    None
}

} // verus!
