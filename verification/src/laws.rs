//! What holds of every template and every list of rules.

use vstd::prelude::*;
use crate::format::{formatted, rule_keys, rule_values};
use crate::lemmas::{
    lemma_apply_restores, lemma_apply_shape, lemma_empty_template_parts, lemma_fragments_bound,
    lemma_fragments_with_absent_key, lemma_rendered_agrees, lemma_rendered_one,
    lemma_rendered_renumbered,
};
use crate::model::{
    fragments, keys_usable, literals_apart, literals_filled, rendered, values_bound,
};
use crate::part::PartModel;
use crate::search::occurs;

verus! {

/// Without rules the template is its own single part, and reads as itself
/// whatever the values.
pub proof fn no_rules_is_identity(template: Seq<char>, values: Seq<Seq<char>>)
    ensures
        fragments(template, Seq::empty()) == seq![PartModel::Literal(template)],
        rendered(fragments(template, Seq::empty()), values) == template,
        formatted(template, Seq::empty()) == template,
{
    lemma_rendered_one(PartModel::Literal(template), values);
    lemma_rendered_one(PartModel::Literal(template), rule_values(Seq::empty()));
    assert(rule_keys(Seq::empty()) =~= Seq::<Seq<char>>::empty());
}

/// Putting each rule's key back for its value gives the template back: the
/// parts lose no character of the template and add none.
pub proof fn keys_restore_template(template: Seq<char>, keys: Seq<Seq<char>>)
    ensures
        rendered(fragments(template, keys), keys) == template,
    decreases keys.len(),
{
    if keys.len() == 0 {
        lemma_rendered_one(PartModel::Literal(template), keys);
    } else {
        let before = fragments(template, keys.drop_last());
        keys_restore_template(template, keys.drop_last());
        lemma_fragments_bound(template, keys.drop_last());
        lemma_rendered_agrees(before, keys.drop_last().len(), keys.drop_last(), keys);
        lemma_apply_restores(before, keys.last(), (keys.len() - 1) as nat, keys);
    }
}

/// A rule whose key does not occur in the template changes nothing,
/// wherever it stands among the other rules: the formatted text is the one
/// that the other rules give alone.
pub proof fn absent_key_changes_nothing(
    template: Seq<char>,
    rules: Seq<(Seq<char>, Seq<char>)>,
    at: int,
    key: Seq<char>,
    value: Seq<char>,
)
    requires
        0 <= at <= rules.len(),
        !occurs(template, key),
    ensures
        formatted(template, rules.insert(at, (key, value))) == formatted(template, rules),
{
    let more = rules.insert(at, (key, value));
    assert(rule_keys(more) =~= rule_keys(rules).insert(at, key));
    assert(rule_values(more) =~= rule_values(rules).insert(at, value));
    lemma_fragments_with_absent_key(template, rule_keys(rules), at, key);
    lemma_rendered_renumbered(
        fragments(template, rule_keys(rules)),
        rule_values(rules),
        at as nat,
        value,
    );
}

/// An empty template stays empty: no rule cuts it, and it reads as the
/// empty text whatever the values.
pub proof fn empty_template_stays_empty(rules: Seq<(Seq<char>, Seq<char>)>)
    requires
        keys_usable(rule_keys(rules)),
    ensures
        fragments(Seq::empty(), rule_keys(rules)) == seq![PartModel::Literal(Seq::empty())],
        formatted(Seq::empty(), rules) == Seq::<char>::empty(),
{
    lemma_empty_template_parts(rule_keys(rules));
    lemma_rendered_one(PartModel::Literal(Seq::empty()), rule_values(rules));
}

/// The parts of a template are in shape: there is at least one, each
/// reference is to the value of one of the rules, and no two literals stand
/// side by side. Where the template holds a character, no literal is
/// empty.
pub proof fn parts_are_in_shape(template: Seq<char>, keys: Seq<Seq<char>>)
    requires
        keys_usable(keys),
    ensures
        fragments(template, keys).len() >= 1,
        values_bound(fragments(template, keys), keys.len()),
        literals_apart(fragments(template, keys)),
        template.len() > 0 ==> literals_filled(fragments(template, keys)),
    decreases keys.len(),
{
    lemma_fragments_bound(template, keys);
    let only = seq![PartModel::Literal(template)];
    assert(only.len() == 1 && only[0] == PartModel::Literal(template));
    if template.len() == 0 {
        lemma_empty_template_parts(keys);
        assert(template =~= Seq::<char>::empty());
        assert(fragments(template, keys) == only);
    } else if keys.len() == 0 {
        assert(fragments(template, keys) == only);
    } else {
        assert(keys_usable(keys.drop_last())) by {
            assert forall|i: int| 0 <= i < keys.drop_last().len() implies (
            #[trigger] keys.drop_last()[i]).len() > 0 by {
                assert(keys.drop_last()[i] == keys[i]);
            }
        }
        parts_are_in_shape(template, keys.drop_last());
        assert(keys[keys.len() - 1].len() > 0);
        lemma_apply_shape(
            fragments(template, keys.drop_last()),
            keys.last(),
            (keys.len() - 1) as nat,
        );
    }
}

} // verus!
