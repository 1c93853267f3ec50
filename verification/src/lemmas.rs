//! Steps on the way to the laws: how cutting, applying a rule and rendering
//! behave on sequences of parts.

use vstd::prelude::*;
use crate::model::{
    apply_rule, apply_to_part, fragments, keys_usable, literal_piece, literals_apart,
    literals_avoid, literals_filled, part_text, rendered, renumbered, shifted, split_text,
    values_bound,
};
use crate::part::PartModel;
use crate::search::{lemma_leftmost_of_occurring, leftmost, occurs, occurs_at};

verus! {

/// Cutting a text leaves references to the value of the cutting rule only.
pub proof fn lemma_split_bound(text: Seq<char>, key: Seq<char>, value: nat, count: nat)
    requires
        value < count,
    ensures
        values_bound(split_text(text, key, value), count),
    decreases text.len(),
{
    if key.len() > 0 && occurs(text, key) {
        lemma_leftmost_of_occurring(text, key);
        let at = leftmost(text, key);
        lemma_split_bound(text.skip(at + key.len()), key, value, count);
    }
}

/// A rule leaves the references that were there, and adds only references
/// to its own value.
pub proof fn lemma_apply_bound(parts: Seq<PartModel>, key: Seq<char>, value: nat, count: nat)
    requires
        values_bound(parts, count),
        value < count,
    ensures
        values_bound(apply_rule(parts, key, value), count),
    decreases parts.len(),
{
    if parts.len() > 0 {
        lemma_bound_prefix(parts, count);
        lemma_apply_bound(parts.drop_last(), key, value, count);
        let last = parts.last();
        assert(values_bound(apply_to_part(last, key, value), count)) by {
            match last {
                PartModel::Literal(text) => {
                    lemma_split_bound(text, key, value, count);
                },
                PartModel::Value(rule) => {
                    assert(parts[parts.len() - 1] == last);
                },
            }
        }
    }
}

/// Every reference among the parts of a template is to the value of one of
/// the rules.
pub proof fn lemma_fragments_bound(template: Seq<char>, keys: Seq<Seq<char>>)
    ensures
        values_bound(fragments(template, keys), keys.len()),
    decreases keys.len(),
{
    if keys.len() > 0 {
        lemma_fragments_bound(template, keys.drop_last());
        let before = fragments(template, keys.drop_last());
        assert(values_bound(before, keys.len())) by {
            assert forall|i: int| 0 <= i < before.len() implies match #[trigger] before[i] {
                PartModel::Literal(_) => true,
                PartModel::Value(rule) => rule < keys.len(),
            } by {}
        }
        lemma_apply_bound(before, keys.last(), (keys.len() - 1) as nat, keys.len());
    }
}

/// The text of two sequences of parts, one after the other, is the text of
/// the first followed by the text of the second.
pub proof fn lemma_rendered_concat(
    first: Seq<PartModel>,
    second: Seq<PartModel>,
    values: Seq<Seq<char>>,
)
    ensures
        rendered(first + second, values) == rendered(first, values) + rendered(second, values),
    decreases second.len(),
{
    if second.len() == 0 {
        assert(first + second =~= first);
        assert(rendered(first, values) + rendered(second, values) =~= rendered(first, values));
    } else {
        assert((first + second).drop_last() =~= first + second.drop_last());
        assert((first + second).last() == second.last());
        lemma_rendered_concat(first, second.drop_last(), values);
        assert(rendered(first + second, values) =~= rendered(first, values) + rendered(
            second,
            values,
        ));
    }
}

/// The text of a single part.
pub proof fn lemma_rendered_one(part: PartModel, values: Seq<Seq<char>>)
    ensures
        rendered(seq![part], values) == part_text(part, values),
{
    assert(seq![part].drop_last() =~= Seq::<PartModel>::empty());
    assert(rendered(Seq::<PartModel>::empty(), values) =~= Seq::<char>::empty());
    assert(rendered(seq![part], values) =~= part_text(part, values));
}

/// A fragment of text reads as itself, whether it left a part or not.
pub proof fn lemma_rendered_piece(text: Seq<char>, values: Seq<Seq<char>>)
    ensures
        rendered(literal_piece(text), values) == text,
{
    if text.len() == 0 {
        assert(rendered(literal_piece(text), values) =~= text);
    } else {
        lemma_rendered_one(PartModel::Literal(text), values);
    }
}

/// A text that was cut at the occurrences of a key reads as before once
/// the key is put back for every reference.
pub proof fn lemma_split_restores(
    text: Seq<char>,
    key: Seq<char>,
    value: nat,
    values: Seq<Seq<char>>,
)
    requires
        value < values.len(),
        values[value as int] == key,
    ensures
        rendered(split_text(text, key, value), values) == text,
    decreases text.len(),
{
    if key.len() > 0 && occurs(text, key) {
        lemma_leftmost_of_occurring(text, key);
        let at = leftmost(text, key);
        let head = literal_piece(text.take(at));
        let middle = seq![PartModel::Value(value)];
        let tail = split_text(text.skip(at + key.len()), key, value);
        lemma_split_restores(text.skip(at + key.len()), key, value, values);
        lemma_rendered_concat(head + middle, tail, values);
        lemma_rendered_concat(head, middle, values);
        lemma_rendered_piece(text.take(at), values);
        lemma_rendered_one(PartModel::Value(value), values);
        assert(text.subrange(at, at + key.len()) == key);
        assert(text =~= text.take(at) + text.subrange(at, at + key.len()) + text.skip(
            at + key.len(),
        ));
    } else {
        lemma_rendered_piece(text, values);
    }
}

/// A rule changes nothing in the text of the parts where its value is its
/// own key.
pub proof fn lemma_apply_restores(
    parts: Seq<PartModel>,
    key: Seq<char>,
    value: nat,
    values: Seq<Seq<char>>,
)
    requires
        value < values.len(),
        values[value as int] == key,
    ensures
        rendered(apply_rule(parts, key, value), values) == rendered(parts, values),
    decreases parts.len(),
{
    if parts.len() > 0 {
        lemma_apply_restores(parts.drop_last(), key, value, values);
        lemma_rendered_concat(
            apply_rule(parts.drop_last(), key, value),
            apply_to_part(parts.last(), key, value),
            values,
        );
        match parts.last() {
            PartModel::Literal(text) => {
                if occurs(text, key) {
                    lemma_split_restores(text, key, value, values);
                } else {
                    lemma_rendered_one(parts.last(), values);
                }
            },
            PartModel::Value(_) => {
                lemma_rendered_one(parts.last(), values);
            },
        }
    }
}

/// The text of the parts depends only on the values to which they refer.
pub proof fn lemma_rendered_agrees(
    parts: Seq<PartModel>,
    count: nat,
    first: Seq<Seq<char>>,
    second: Seq<Seq<char>>,
)
    requires
        values_bound(parts, count),
        count <= first.len(),
        count <= second.len(),
        forall|i: int| 0 <= i < count ==> first[i] == second[i],
    ensures
        rendered(parts, first) == rendered(parts, second),
    decreases parts.len(),
{
    if parts.len() > 0 {
        lemma_bound_prefix(parts, count);
        lemma_rendered_agrees(parts.drop_last(), count, first, second);
        assert(parts[parts.len() - 1] == parts.last());
    }
}

/// What holds of all parts holds of all but the last.
pub proof fn lemma_bound_prefix(parts: Seq<PartModel>, count: nat)
    requires
        values_bound(parts, count),
        parts.len() > 0,
    ensures
        values_bound(parts.drop_last(), count),
{
    assert forall|i: int| 0 <= i < parts.drop_last().len() implies match #[trigger] parts.drop_last()[i] {
        PartModel::Literal(_) => true,
        PartModel::Value(rule) => rule < count,
    } by {
        assert(parts.drop_last()[i] == parts[i]);
    }
}

/// What occurs in a stretch of a text occurs in the text.
pub proof fn lemma_occurs_in_stretch(text: Seq<char>, key: Seq<char>, from: int, to: int)
    requires
        0 <= from <= to <= text.len(),
        occurs(text.subrange(from, to), key),
    ensures
        occurs(text, key),
{
    let at = choose|at: int| occurs_at(text.subrange(from, to), key, at);
    assert(text.subrange(from, to).subrange(at, at + key.len()) =~= text.subrange(
        from + at,
        from + at + key.len(),
    ));
    assert(occurs_at(text, key, from + at));
}

/// Cutting a text that does not hold `key` leaves no literal that holds it.
pub proof fn lemma_split_avoids(text: Seq<char>, cut: Seq<char>, value: nat, key: Seq<char>)
    requires
        !occurs(text, key),
    ensures
        literals_avoid(split_text(text, cut, value), key),
    decreases text.len(),
{
    if cut.len() > 0 && occurs(text, cut) {
        lemma_leftmost_of_occurring(text, cut);
        let at = leftmost(text, cut);
        let rest = text.skip(at + cut.len());
        if occurs(text.take(at), key) {
            lemma_occurs_in_stretch(text, key, 0, at);
        }
        if occurs(rest, key) {
            assert(rest =~= text.subrange(at + cut.len(), text.len() as int));
            lemma_occurs_in_stretch(text, key, at + cut.len(), text.len() as int);
        }
        lemma_split_avoids(rest, cut, value, key);
    }
}

/// A rule leaves no literal that holds `key` where there was none before.
pub proof fn lemma_apply_avoids(parts: Seq<PartModel>, cut: Seq<char>, value: nat, key: Seq<char>)
    requires
        literals_avoid(parts, key),
    ensures
        literals_avoid(apply_rule(parts, cut, value), key),
    decreases parts.len(),
{
    if parts.len() > 0 {
        assert forall|i: int| 0 <= i < parts.drop_last().len() implies match #[trigger] parts.drop_last()[i] {
            PartModel::Literal(text) => !occurs(text, key),
            PartModel::Value(_) => true,
        } by {
            assert(parts.drop_last()[i] == parts[i]);
        }
        lemma_apply_avoids(parts.drop_last(), cut, value, key);
        assert(parts[parts.len() - 1] == parts.last());
        match parts.last() {
            PartModel::Literal(text) => {
                lemma_split_avoids(text, cut, value, key);
            },
            PartModel::Value(_) => {},
        }
    }
}

/// No part of a template holds a key that the template does not hold.
pub proof fn lemma_fragments_avoid(template: Seq<char>, keys: Seq<Seq<char>>, key: Seq<char>)
    requires
        !occurs(template, key),
    ensures
        literals_avoid(fragments(template, keys), key),
    decreases keys.len(),
{
    if keys.len() > 0 {
        lemma_fragments_avoid(template, keys.drop_last(), key);
        lemma_apply_avoids(
            fragments(template, keys.drop_last()),
            keys.last(),
            (keys.len() - 1) as nat,
            key,
        );
    }
}

/// A rule whose key is in no literal leaves the parts as they are.
pub proof fn lemma_apply_absent(parts: Seq<PartModel>, key: Seq<char>, value: nat)
    requires
        literals_avoid(parts, key),
    ensures
        apply_rule(parts, key, value) == parts,
    decreases parts.len(),
{
    if parts.len() > 0 {
        assert forall|i: int| 0 <= i < parts.drop_last().len() implies match #[trigger] parts.drop_last()[i] {
            PartModel::Literal(text) => !occurs(text, key),
            PartModel::Value(_) => true,
        } by {
            assert(parts.drop_last()[i] == parts[i]);
        }
        lemma_apply_absent(parts.drop_last(), key, value);
        assert(parts[parts.len() - 1] == parts.last());
        assert(apply_rule(parts, key, value) =~= parts);
    } else {
        assert(apply_rule(parts, key, value) =~= parts);
    }
}

/// Cutting and renumbering can be done in either order.
pub proof fn lemma_split_renumbered(text: Seq<char>, key: Seq<char>, value: nat, from: nat)
    ensures
        renumbered(split_text(text, key, value), from) == split_text(
            text,
            key,
            if value >= from {
                value + 1
            } else {
                value
            },
        ),
    decreases text.len(),
{
    let moved: nat = if value >= from {
        value + 1
    } else {
        value
    };
    if key.len() > 0 && occurs(text, key) {
        lemma_leftmost_of_occurring(text, key);
        let at = leftmost(text, key);
        lemma_split_renumbered(text.skip(at + key.len()), key, value, from);
        assert(renumbered(split_text(text, key, value), from) =~= split_text(text, key, moved));
    } else {
        assert(renumbered(split_text(text, key, value), from) =~= split_text(text, key, moved));
    }
}

/// Applying a rule and renumbering can be done in either order.
pub proof fn lemma_apply_renumbered(parts: Seq<PartModel>, key: Seq<char>, value: nat, from: nat)
    ensures
        renumbered(apply_rule(parts, key, value), from) == apply_rule(
            renumbered(parts, from),
            key,
            if value >= from {
                value + 1
            } else {
                value
            },
        ),
    decreases parts.len(),
{
    let moved: nat = if value >= from {
        value + 1
    } else {
        value
    };
    if parts.len() > 0 {
        lemma_apply_renumbered(parts.drop_last(), key, value, from);
        assert(renumbered(parts, from).drop_last() =~= renumbered(parts.drop_last(), from));
        assert(renumbered(parts, from).last() == shifted(parts.last(), from));
        match parts.last() {
            PartModel::Literal(text) => {
                lemma_split_renumbered(text, key, value, from);
                assert(renumbered(apply_to_part(parts.last(), key, value), from) =~= apply_to_part(
                    shifted(parts.last(), from),
                    key,
                    moved,
                ));
            },
            PartModel::Value(_) => {
                assert(renumbered(apply_to_part(parts.last(), key, value), from) =~= apply_to_part(
                    shifted(parts.last(), from),
                    key,
                    moved,
                ));
            },
        }
        assert(renumbered(apply_rule(parts, key, value), from) =~= renumbered(
            apply_rule(parts.drop_last(), key, value),
            from,
        ) + renumbered(apply_to_part(parts.last(), key, value), from));
    } else {
        assert(renumbered(apply_rule(parts, key, value), from) =~= apply_rule(
            renumbered(parts, from),
            key,
            moved,
        ));
    }
}

/// Renumbered parts read, with one more value put in at that position, as
/// the parts did without it.
pub proof fn lemma_rendered_renumbered(
    parts: Seq<PartModel>,
    values: Seq<Seq<char>>,
    from: nat,
    value: Seq<char>,
)
    requires
        from <= values.len(),
    ensures
        rendered(renumbered(parts, from), values.insert(from as int, value)) == rendered(
            parts,
            values,
        ),
    decreases parts.len(),
{
    if parts.len() > 0 {
        lemma_rendered_renumbered(parts.drop_last(), values, from, value);
        assert(renumbered(parts, from).drop_last() =~= renumbered(parts.drop_last(), from));
        assert(renumbered(parts, from).last() == shifted(parts.last(), from));
    }
}

/// Parts that refer to no value at or after `from` are their own
/// renumbering.
pub proof fn lemma_renumbered_bound(parts: Seq<PartModel>, from: nat)
    requires
        values_bound(parts, from),
    ensures
        renumbered(parts, from) == parts,
{
    assert(renumbered(parts, from) =~= parts);
}

/// One more rule, with a key that the template does not hold, leaves the
/// parts as they would be without it, but for the positions of the rules
/// after it.
pub proof fn lemma_fragments_with_absent_key(
    template: Seq<char>,
    keys: Seq<Seq<char>>,
    at: int,
    key: Seq<char>,
)
    requires
        0 <= at <= keys.len(),
        !occurs(template, key),
    ensures
        fragments(template, keys.insert(at, key)) == renumbered(
            fragments(template, keys),
            at as nat,
        ),
    decreases keys.len(),
{
    let more = keys.insert(at, key);
    if at == keys.len() {
        assert(more.drop_last() =~= keys);
        lemma_fragments_avoid(template, keys, key);
        lemma_apply_absent(fragments(template, keys), key, keys.len());
        lemma_fragments_bound(template, keys);
        lemma_renumbered_bound(fragments(template, keys), keys.len());
    } else {
        assert(more.drop_last() =~= keys.drop_last().insert(at, key));
        assert(more.last() == keys.last());
        lemma_fragments_with_absent_key(template, keys.drop_last(), at, key);
        lemma_apply_renumbered(
            fragments(template, keys.drop_last()),
            keys.last(),
            (keys.len() - 1) as nat,
            at as nat,
        );
    }
}

/// No rule with a key of at least one character cuts the empty template.
pub proof fn lemma_empty_template_parts(keys: Seq<Seq<char>>)
    requires
        keys_usable(keys),
    ensures
        fragments(Seq::empty(), keys) == seq![PartModel::Literal(Seq::empty())],
    decreases keys.len(),
{
    if keys.len() > 0 {
        assert(keys_usable(keys.drop_last())) by {
            assert forall|i: int| 0 <= i < keys.drop_last().len() implies (
            #[trigger] keys.drop_last()[i]).len() > 0 by {
                assert(keys.drop_last()[i] == keys[i]);
            }
        }
        lemma_empty_template_parts(keys.drop_last());
        let only = seq![PartModel::Literal(Seq::<char>::empty())];
        assert(keys[keys.len() - 1].len() > 0);
        assert(!occurs(Seq::<char>::empty(), keys.last()));
        assert(only.drop_last() =~= Seq::<PartModel>::empty());
        assert(apply_rule(Seq::<PartModel>::empty(), keys.last(), (keys.len() - 1) as nat)
            =~= Seq::<PartModel>::empty());
        assert(apply_rule(only, keys.last(), (keys.len() - 1) as nat) =~= only);
    }
}

/// The parts of a cut text: at least one where the key occurs, no empty
/// literal, no two literals side by side.
pub proof fn lemma_split_shape(text: Seq<char>, key: Seq<char>, value: nat)
    ensures
        literals_filled(split_text(text, key, value)),
        literals_apart(split_text(text, key, value)),
        key.len() > 0 && occurs(text, key) ==> split_text(text, key, value).len() > 0,
    decreases text.len(),
{
    if key.len() > 0 && occurs(text, key) {
        lemma_leftmost_of_occurring(text, key);
        let at = leftmost(text, key);
        let head = literal_piece(text.take(at)) + seq![PartModel::Value(value)];
        let tail = split_text(text.skip(at + key.len()), key, value);
        lemma_split_shape(text.skip(at + key.len()), key, value);
        let all = split_text(text, key, value);
        assert(all == head + tail);
        assert forall|i: int| 0 <= i && i + 1 < all.len() implies !((#[trigger] all[i]) is Literal
            && all[i + 1] is Literal) by {
            if i >= head.len() {
                assert(all[i] == tail[i - head.len()]);
                assert(all[i + 1] == tail[i - head.len() + 1]);
            }
        }
    }
}

/// A rule with a key of at least one character keeps the parts in shape:
/// it leaves at least one part for each, no empty literal, and no two
/// literals side by side; and where its last part is a literal, so was the
/// last part before.
pub proof fn lemma_apply_shape(parts: Seq<PartModel>, key: Seq<char>, value: nat)
    requires
        key.len() > 0,
        literals_filled(parts),
        literals_apart(parts),
    ensures
        literals_filled(apply_rule(parts, key, value)),
        literals_apart(apply_rule(parts, key, value)),
        apply_rule(parts, key, value).len() >= parts.len(),
        parts.len() > 0 && apply_rule(parts, key, value).last() is Literal
            ==> parts.last() is Literal,
    decreases parts.len(),
{
    if parts.len() > 0 {
        let front = parts.drop_last();
        assert(literals_filled(front) && literals_apart(front)) by {
            assert forall|i: int| 0 <= i < front.len() implies match #[trigger] front[i] {
                PartModel::Literal(text) => text.len() > 0,
                PartModel::Value(_) => true,
            } by {
                assert(front[i] == parts[i]);
            }
            assert forall|i: int| 0 <= i && i + 1 < front.len() implies !((
            #[trigger] front[i]) is Literal && front[i + 1] is Literal) by {
                assert(front[i] == parts[i]);
                assert(front[i + 1] == parts[i + 1]);
            }
        }
        lemma_apply_shape(front, key, value);
        let head = apply_rule(front, key, value);
        let tail = apply_to_part(parts.last(), key, value);
        let all = apply_rule(parts, key, value);
        assert(all == head + tail);
        assert(parts[parts.len() - 1] == parts.last());
        match parts.last() {
            PartModel::Literal(text) => {
                lemma_split_shape(text, key, value);
            },
            PartModel::Value(_) => {},
        }
        assert(tail.len() > 0);
        assert(literals_filled(tail) && literals_apart(tail));
        assert forall|i: int| 0 <= i && i + 1 < all.len() implies !((#[trigger] all[i]) is Literal
            && all[i + 1] is Literal) by {
            if i + 1 < head.len() {
                assert(all[i] == head[i]);
                assert(all[i + 1] == head[i + 1]);
            } else if i >= head.len() {
                assert(all[i] == tail[i - head.len()]);
                assert(all[i + 1] == tail[i - head.len() + 1]);
            } else {
                assert(all[i] == head.last());
                assert(all[i + 1] == tail[0]);
                if head.last() is Literal && tail[0] is Literal {
                    assert(front.last() is Literal);
                    assert(parts.last() is Literal);
                    assert(parts[parts.len() - 2] == front.last());
                }
            }
        }
        assert(all.last() == tail.last());
    }
}

} // verus!
