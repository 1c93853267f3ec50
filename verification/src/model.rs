//! What fragmenting and rendering mean, over sequences of characters.

use vstd::prelude::*;
use crate::part::PartModel;
use crate::search::{lemma_leftmost_of_occurring, leftmost, occurs};

verus! {

/// A fragment of text as a sequence of parts: nothing where the fragment is
/// empty, one literal otherwise.
pub open spec fn literal_piece(text: Seq<char>) -> Seq<PartModel> {
    if text.len() == 0 {
        Seq::empty()
    } else {
        seq![PartModel::Literal(text)]
    }
}

/// `text` cut at every occurrence of `key`, leftmost first and without
/// overlap, with a reference to `value` in place of each occurrence. Empty
/// fragments leave no part.
pub open spec fn split_text(text: Seq<char>, key: Seq<char>, value: nat) -> Seq<PartModel>
    decreases text.len(),
    via split_text_decreases
{
    if key.len() > 0 && occurs(text, key) {
        let at = leftmost(text, key);
        literal_piece(text.take(at)) + seq![PartModel::Value(value)] + split_text(
            text.skip(at + key.len()),
            key,
            value,
        )
    } else {
        literal_piece(text)
    }
}

#[via_fn]
proof fn split_text_decreases(text: Seq<char>, key: Seq<char>, value: nat) {
    if key.len() > 0 && occurs(text, key) {
        lemma_leftmost_of_occurring(text, key);
    }
}

/// What one rule makes of one part. A value is kept as it is; so is a
/// literal in which the key does not occur, even an empty one.
pub open spec fn apply_to_part(part: PartModel, key: Seq<char>, value: nat) -> Seq<PartModel> {
    match part {
        PartModel::Literal(text) => if occurs(text, key) {
            split_text(text, key, value)
        } else {
            seq![part]
        },
        PartModel::Value(_) => seq![part],
    }
}

/// What one rule makes of a sequence of parts.
pub open spec fn apply_rule(parts: Seq<PartModel>, key: Seq<char>, value: nat) -> Seq<PartModel>
    decreases parts.len(),
{
    if parts.len() == 0 {
        Seq::empty()
    } else {
        apply_rule(parts.drop_last(), key, value) + apply_to_part(parts.last(), key, value)
    }
}

/// The parts of `template` after the rules with these keys were applied in
/// order. The rule at position `i` leaves references to value `i`.
pub open spec fn fragments(template: Seq<char>, keys: Seq<Seq<char>>) -> Seq<PartModel>
    decreases keys.len(),
{
    if keys.len() == 0 {
        seq![PartModel::Literal(template)]
    } else {
        apply_rule(fragments(template, keys.drop_last()), keys.last(), (keys.len() - 1) as nat)
    }
}

/// Every key holds at least one character.
pub open spec fn keys_usable(keys: Seq<Seq<char>>) -> bool {
    forall|i: int| 0 <= i < keys.len() ==> (#[trigger] keys[i]).len() > 0
}

/// Every reference among `parts` is to one of `count` values.
pub open spec fn values_bound(parts: Seq<PartModel>, count: nat) -> bool {
    forall|i: int|
        0 <= i < parts.len() ==> match #[trigger] parts[i] {
            PartModel::Literal(_) => true,
            PartModel::Value(rule) => rule < count,
        }
}

/// The text of one part, with `values[i]` for a reference to value `i`.
pub open spec fn part_text(part: PartModel, values: Seq<Seq<char>>) -> Seq<char> {
    match part {
        PartModel::Literal(text) => text,
        PartModel::Value(rule) => if rule < values.len() {
            values[rule as int]
        } else {
            Seq::empty()
        },
    }
}

/// The texts of all parts, joined in order.
pub open spec fn rendered(parts: Seq<PartModel>, values: Seq<Seq<char>>) -> Seq<char>
    decreases parts.len(),
{
    if parts.len() == 0 {
        Seq::empty()
    } else {
        rendered(parts.drop_last(), values) + part_text(parts.last(), values)
    }
}

/// `count` placeholders, `{}` each.
pub open spec fn placeholders(count: nat) -> Seq<char>
    decreases count,
{
    if count == 0 {
        Seq::empty()
    } else {
        placeholders((count - 1) as nat) + seq!['{', '}']
    }
}

/// `at` is the position of the first key that holds no character.
pub open spec fn first_empty_key(keys: Seq<Seq<char>>, at: int) -> bool {
    &&& 0 <= at < keys.len()
    &&& keys[at].len() == 0
    &&& forall|i: int| 0 <= i < at ==> (#[trigger] keys[i]).len() > 0
}

/// The first reference among `parts` to a value beyond the `count` that
/// were given is the one to value `rule`.
pub open spec fn first_unbound(parts: Seq<PartModel>, count: nat, rule: nat) -> bool {
    exists|at: int|
        {
            &&& 0 <= at < parts.len()
            &&& #[trigger] parts[at] == PartModel::Value(rule)
            &&& rule >= count
            &&& values_bound(parts.take(at), count)
        }
}

/// No literal among `parts` holds `key`.
pub open spec fn literals_avoid(parts: Seq<PartModel>, key: Seq<char>) -> bool {
    forall|i: int|
        0 <= i < parts.len() ==> match #[trigger] parts[i] {
            PartModel::Literal(text) => !occurs(text, key),
            PartModel::Value(_) => true,
        }
}

/// The part with room made for one more rule at position `from`: a
/// reference to a value at or after that position moves up by one.
pub open spec fn shifted(part: PartModel, from: nat) -> PartModel {
    match part {
        PartModel::Literal(_) => part,
        PartModel::Value(rule) => if rule >= from {
            PartModel::Value(rule + 1)
        } else {
            part
        },
    }
}

/// The parts with room made for one more rule at position `from`.
pub open spec fn renumbered(parts: Seq<PartModel>, from: nat) -> Seq<PartModel> {
    Seq::new(parts.len(), |i: int| shifted(parts[i], from))
}

/// Every literal among `parts` holds at least one character.
pub open spec fn literals_filled(parts: Seq<PartModel>) -> bool {
    forall|i: int|
        0 <= i < parts.len() ==> match #[trigger] parts[i] {
            PartModel::Literal(text) => text.len() > 0,
            PartModel::Value(_) => true,
        }
}

/// No two literals among `parts` stand side by side.
pub open spec fn literals_apart(parts: Seq<PartModel>) -> bool {
    forall|i: int|
        0 <= i && i + 1 < parts.len() ==> !((#[trigger] parts[i]) is Literal && parts[i
            + 1] is Literal)
}

} // verus!
