//! Formatting a template in one call.

use vstd::prelude::*;
use crate::fragment::fragment;
use crate::lemmas::lemma_fragments_bound;
use crate::model::{first_empty_key, fragments, keys_usable, rendered};
use crate::part::FormatError;
use crate::render::render;

verus! {

/// The keys of these rules, in order.
pub open spec fn rule_keys(rules: Seq<(Seq<char>, Seq<char>)>) -> Seq<Seq<char>> {
    Seq::new(rules.len(), |i: int| rules[i].0)
}

/// The values of these rules, in order.
pub open spec fn rule_values(rules: Seq<(Seq<char>, Seq<char>)>) -> Seq<Seq<char>> {
    Seq::new(rules.len(), |i: int| rules[i].1)
}

/// The text that `template` becomes under these rules: what is left once
/// every rule, in order, has replaced the occurrences of its key by its
/// value in the text that the rules before it left untouched.
pub open spec fn formatted(template: Seq<char>, rules: Seq<(Seq<char>, Seq<char>)>) -> Seq<char> {
    rendered(fragments(template, rule_keys(rules)), rule_values(rules))
}

/// Replaces in `template` the key of each rule by its value. The rules are
/// applied in the order given, and a value that was put in is never scanned
/// for the keys of later rules.
///
/// Fails on the first rule whose key is empty, and only then.
pub fn exact_format(template: &str, rules: &[(&str, &str)]) -> (out: Result<String, FormatError>)
    ensures
        match out {
            Ok(text) => {
                &&& keys_usable(rule_keys(rules.deep_view()))
                &&& text@ == formatted(template@, rules.deep_view())
            },
            Err(FormatError::EmptyKey(at)) => first_empty_key(
                rule_keys(rules.deep_view()),
                at as int,
            ),
            Err(FormatError::MissingValue(_)) => false,
        },
{
    let mut keys: Vec<&str> = Vec::new();
    let mut values: Vec<&str> = Vec::new();
    let ghost model = rules.deep_view();
    let mut i: usize = 0;
    while i < rules.len()
        invariant
            i <= rules.len(),
            model == rules.deep_view(),
            keys.deep_view() == rule_keys(model.take(i as int)),
            values.deep_view() == rule_values(model.take(i as int)),
        decreases rules.len() - i,
    {
        let ghost keys_before = keys.deep_view();
        let ghost values_before = values.deep_view();
        let rule = rules[i];
        keys.push(rule.0);
        values.push(rule.1);
        i += 1;
        proof {
            assert(model[i - 1] == (rule.0@, rule.1@));
            assert(keys.deep_view() =~= keys_before.push(rule.0@));
            assert(values.deep_view() =~= values_before.push(rule.1@));
            assert(model.take(i as int).drop_last() =~= model.take(i - 1));
            assert(rule_keys(model.take(i as int)) =~= rule_keys(model.take(i - 1)).push(
                rule.0@,
            ));
            assert(rule_values(model.take(i as int)) =~= rule_values(model.take(i - 1)).push(
                rule.1@,
            ));
        }
    }
    assert(model.take(rules.len() as int) =~= model);
    let keys = keys.as_slice();
    let values = values.as_slice();
    assert(keys.deep_view() =~= rule_keys(model));
    assert(values.deep_view() =~= rule_values(model));
    match fragment(template, keys) {
        Ok(parts) => {
            proof {
                lemma_fragments_bound(template@, rule_keys(model));
            }
            render(&parts, values)
        },
        Err(e) => Err(e),
    }
}

} // verus!
