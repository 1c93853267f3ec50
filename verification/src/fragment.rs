//! Cutting a template into parts, one rule after the other.

use vstd::prelude::*;
use crate::chars::{to_chars, to_text};
use crate::model::{
    apply_rule, first_empty_key, fragments, keys_usable, literal_piece, split_text,
};
use crate::part::{FormatError, Part, PartModel};
use crate::search::{
    find_from, is_leftmost, lemma_leftmost_unique, lemma_occurs_at_in_suffix, occurs, occurs_at,
};

verus! {

/// The first occurrence in a suffix of `text`, seen from the whole text.
proof fn lemma_leftmost_in_suffix(text: Seq<char>, key: Seq<char>, from: int, at: int)
    requires
        0 <= from <= at,
        occurs_at(text, key, at),
        forall|before: int| from <= before < at ==> !occurs_at(text, key, before),
    ensures
        is_leftmost(text.skip(from), key, at - from),
{
    lemma_occurs_at_in_suffix(text, key, from, at - from);
    assert forall|before: int| before < at - from implies !occurs_at(
        text.skip(from),
        key,
        before,
    ) by {
        lemma_occurs_at_in_suffix(text, key, from, before);
    }
}

/// A suffix in which the key starts nowhere does not hold it.
proof fn lemma_absent_in_suffix(text: Seq<char>, key: Seq<char>, from: int)
    requires
        0 <= from <= text.len(),
        forall|at: int| from <= at ==> !occurs_at(text, key, at),
    ensures
        !occurs(text.skip(from), key),
{
    assert forall|at: int| !occurs_at(text.skip(from), key, at) by {
        lemma_occurs_at_in_suffix(text, key, from, at);
    }
}

/// Appends to `out` the parts of `text` cut at every occurrence of `key`.
pub fn split_into(text: &Vec<char>, key: &Vec<char>, value: usize, out: &mut Vec<Part>)
    requires
        key@.len() > 0,
    ensures
        final(out).deep_view() == old(out).deep_view() + split_text(text@, key@, value as nat),
{
    let ghost before = out.deep_view();
    let ghost whole = before + split_text(text@, key@, value as nat);
    let mut from: usize = 0;
    assert(text@.skip(0) =~= text@);
    loop
        invariant_except_break
            out.deep_view() + split_text(text@.skip(from as int), key@, value as nat) == whole,
        invariant
            key@.len() > 0,
            from <= text.len(),
        ensures
            out.deep_view() == whole,
        decreases text.len() - from,
    {
        let ghost rest = text@.skip(from as int);
        let ghost done = out.deep_view();
        let ghost start = from as int;
        match find_from(text, key, from) {
            Some(at) => {
                proof {
                    lemma_leftmost_in_suffix(text@, key@, from as int, at as int);
                    lemma_leftmost_unique(rest, key@, at - from);
                    assert(occurs(rest, key@));
                    assert(rest.take(at - from) =~= text@.subrange(from as int, at as int));
                    assert(rest.skip(at - from + key@.len()) =~= text@.skip(at + key@.len()));
                }
                if at > from {
                    let piece = to_text(text, from, at);
                    out.push(Part::Literal(piece));
                    assert(out.deep_view() =~= done + literal_piece(rest.take(at - from)));
                } else {
                    assert(out.deep_view() =~= done + literal_piece(rest.take(at - from)));
                }
                let ghost with_piece = out.deep_view();
                out.push(Part::Value(value));
                from = at + key.len();
                proof {
                    let tail = split_text(text@.skip(from as int), key@, value as nat);
                    assert(out.deep_view() =~= with_piece + seq![PartModel::Value(value as nat)]);
                    assert(split_text(rest, key@, value as nat) == literal_piece(
                        rest.take(at - start),
                    ) + seq![PartModel::Value(value as nat)] + tail);
                    assert(out.deep_view() + tail =~= done + split_text(rest, key@, value as nat));
                }
            },
            None => {
                proof {
                    lemma_absent_in_suffix(text@, key@, from as int);
                    assert(rest =~= text@.subrange(from as int, text@.len() as int));
                }
                if from < text.len() {
                    let piece = to_text(text, from, text.len());
                    out.push(Part::Literal(piece));
                    assert(out.deep_view() =~= done + literal_piece(rest));
                } else {
                    assert(out.deep_view() =~= done + literal_piece(rest));
                }
                break;
            },
        }
    }
}

/// Applies one rule to every part, in order: each literal is cut at the
/// occurrences of `key`, each reference to a value is kept as it is.
pub fn apply(parts: &Vec<Part>, key: &str, value: usize) -> (out: Vec<Part>)
    requires
        key@.len() > 0,
    ensures
        out.deep_view() == apply_rule(parts.deep_view(), key@, value as nat),
{
    let key_chars = to_chars(key);
    let mut out: Vec<Part> = Vec::new();
    let mut i: usize = 0;
    assert(parts.deep_view().take(0) =~= Seq::empty());
    while i < parts.len()
        invariant
            i <= parts.len(),
            key_chars@ == key@,
            key@.len() > 0,
            out.deep_view() == apply_rule(parts.deep_view().take(i as int), key@, value as nat),
        decreases parts.len() - i,
    {
        let ghost done = out.deep_view();
        let ghost model = parts.deep_view();
        proof {
            assert(model.take(i + 1).drop_last() =~= model.take(i as int));
            assert(model.take(i + 1).last() == parts[i as int]@);
        }
        match &parts[i] {
            Part::Literal(text) => {
                let text_chars = to_chars(text.as_str());
                match find_from(&text_chars, &key_chars, 0) {
                    Some(_) => {
                        split_into(&text_chars, &key_chars, value, &mut out);
                    },
                    None => {
                        out.push(Part::Literal(text.clone()));
                        assert(out.deep_view() =~= done + seq![parts[i as int]@]);
                    },
                }
            },
            Part::Value(rule) => {
                out.push(Part::Value(*rule));
                assert(out.deep_view() =~= done + seq![parts[i as int]@]);
            },
        }
        i += 1;
    }
    assert(parts.deep_view().take(parts.len() as int) =~= parts.deep_view());
    out
}

/// The position of the first key that holds no character, if there is one.
pub fn find_empty_key(keys: &[&str]) -> (out: Option<usize>)
    ensures
        match out {
            Some(at) => first_empty_key(keys.deep_view(), at as int),
            None => keys_usable(keys.deep_view()),
        },
{
    let mut i: usize = 0;
    while i < keys.len()
        invariant
            i <= keys.len(),
            forall|j: int| 0 <= j < i ==> (#[trigger] keys.deep_view()[j]).len() > 0,
        decreases keys.len() - i,
    {
        if keys[i].is_empty() {
            return Some(i);
        }
        i += 1;
    }
    None
}

/// Cuts `template` into parts by the rules with these keys, applied in the
/// order given. Each rule works on what the rules before it have left:
/// text that an earlier rule has replaced is not scanned again.
///
/// Fails on the first key that is empty, and only then.
pub fn fragment(template: &str, keys: &[&str]) -> (out: Result<Vec<Part>, FormatError>)
    ensures
        match out {
            Ok(parts) => {
                &&& keys_usable(keys.deep_view())
                &&& parts.deep_view() == fragments(template@, keys.deep_view())
            },
            Err(FormatError::EmptyKey(at)) => first_empty_key(keys.deep_view(), at as int),
            Err(FormatError::MissingValue(_)) => false,
        },
{
    if let Some(at) = find_empty_key(keys) {
        return Err(FormatError::EmptyKey(at));
    }
    let mut parts: Vec<Part> = Vec::new();
    parts.push(Part::Literal(template.to_owned()));
    let ghost model = keys.deep_view();
    assert(model.take(0) =~= Seq::empty());
    assert(parts.deep_view() =~= seq![PartModel::Literal(template@)]);
    let mut i: usize = 0;
    while i < keys.len()
        invariant
            i <= keys.len(),
            model == keys.deep_view(),
            keys_usable(model),
            parts.deep_view() == fragments(template@, model.take(i as int)),
        decreases keys.len() - i,
    {
        proof {
            assert(model.take(i + 1).drop_last() =~= model.take(i as int));
            assert(model.take(i + 1).last() == keys[i as int]@);
            assert(model[i as int].len() > 0);
        }
        parts = apply(&parts, keys[i], i);
        i += 1;
    }
    assert(model.take(keys.len() as int) =~= model);
    Ok(parts)
}

} // verus!
