//! Turning a sequence of parts into text.

use vstd::prelude::*;
use vstd::string::StringExecFns;
use crate::chars::push_char;
use crate::model::{first_unbound, placeholders, rendered, values_bound};
use crate::part::{FormatError, Part, PartModel};

verus! {

/// Joins the parts into one text: a literal stands for itself, a reference
/// to value `i` for `values[i]`. Every reference is looked up anew, so a
/// value that is referred to twice appears twice.
///
/// Fails on the first reference to a value that was not given, and only
/// then.
pub fn render(parts: &Vec<Part>, values: &[&str]) -> (out: Result<String, FormatError>)
    ensures
        match out {
            Ok(text) => {
                &&& values_bound(parts.deep_view(), values.deep_view().len())
                &&& text@ == rendered(parts.deep_view(), values.deep_view())
            },
            Err(FormatError::MissingValue(rule)) => first_unbound(
                parts.deep_view(),
                values.deep_view().len(),
                rule as nat,
            ),
            Err(FormatError::EmptyKey(_)) => false,
        },
{
    let mut text = String::new();
    let mut i: usize = 0;
    let ghost model = parts.deep_view();
    let ghost texts = values.deep_view();
    assert(model.take(0) =~= Seq::empty());
    while i < parts.len()
        invariant
            i <= parts.len(),
            model == parts.deep_view(),
            texts == values.deep_view(),
            values_bound(model.take(i as int), texts.len()),
            text@ == rendered(model.take(i as int), texts),
        decreases parts.len() - i,
    {
        proof {
            assert(model.take(i + 1).drop_last() =~= model.take(i as int));
            assert(model.take(i + 1).last() == parts[i as int]@);
        }
        match &parts[i] {
            Part::Literal(piece) => {
                text.append(piece.as_str());
            },
            Part::Value(rule) => {
                if *rule >= values.len() {
                    assert(model[i as int] == PartModel::Value(*rule as nat));
                    return Err(FormatError::MissingValue(*rule));
                }
                assert(texts[*rule as int] == values[*rule as int]@);
                text.append(values[*rule]);
            },
        }
        i += 1;
        assert forall|j: int| 0 <= j < i implies match #[trigger] model.take(i as int)[j] {
            PartModel::Literal(_) => true,
            PartModel::Value(rule) => rule < texts.len(),
        } by {
            if j < i - 1 {
                assert(model.take(i - 1)[j] == model.take(i as int)[j]);
            }
        }
    }
    assert(model.take(parts.len() as int) =~= model);
    Ok(text)
}

/// The format template for these parts: one `{}` for each part, and
/// nothing else.
pub fn format_template(parts: &Vec<Part>) -> (out: String)
    ensures
        out@ == placeholders(parts.len() as nat),
{
    let mut out = String::new();
    let mut i: usize = 0;
    while i < parts.len()
        invariant
            i <= parts.len(),
            out@ == placeholders(i as nat),
        decreases parts.len() - i,
    {
        push_char(&mut out, '{');
        push_char(&mut out, '}');
        i += 1;
        assert(out@ =~= placeholders((i - 1) as nat) + seq!['{', '}']);
    }
    out
}

} // verus!
