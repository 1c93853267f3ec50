use exact_format::chars::{to_chars, to_text};
use exact_format::fragment::{apply, find_empty_key, split_into};
use exact_format::search::{find_from, matches_at};
use exact_format::{
    exact_format, format_template, fragment, render, value_name, FormatError, Part,
};

fn literal(text: &str) -> Part {
    Part::Literal(text.to_string())
}

fn chars(text: &str) -> Vec<char> {
    text.chars().collect()
}

#[test]
fn no_rules_leave_the_template_as_its_only_part() {
    let parts = fragment("Hello World", &[]).unwrap();
    assert_eq!(parts, vec![literal("Hello World")]);
    assert_eq!(render(&parts, &[]).unwrap(), "Hello World");
    assert_eq!(exact_format("Hello World", &[]).unwrap(), "Hello World");
}

#[test]
fn absent_key_changes_nothing_wherever_it_stands() {
    let without = exact_format("a-b-c", &[("a", "1"), ("c", "3")]).unwrap();
    assert_eq!(without, "1-b-3");
    let first = exact_format("a-b-c", &[("zz", "?"), ("a", "1"), ("c", "3")]).unwrap();
    let middle = exact_format("a-b-c", &[("a", "1"), ("zz", "?"), ("c", "3")]).unwrap();
    let last = exact_format("a-b-c", &[("a", "1"), ("c", "3"), ("zz", "?")]).unwrap();
    assert_eq!(first, without);
    assert_eq!(middle, without);
    assert_eq!(last, without);
}

#[test]
fn absent_key_moves_later_references_up_by_one() {
    let without = fragment("a-c", &["a", "c"]).unwrap();
    assert_eq!(without, vec![Part::Value(0), literal("-"), Part::Value(1)]);
    let with = fragment("a-c", &["a", "zz", "c"]).unwrap();
    assert_eq!(with, vec![Part::Value(0), literal("-"), Part::Value(2)]);
}

#[test]
fn empty_template_keeps_its_empty_literal() {
    let parts = fragment("", &["anything", "more"]).unwrap();
    assert_eq!(parts, vec![literal("")]);
    assert_eq!(render(&parts, &["something", "else"]).unwrap(), "");
    assert_eq!(format_template(&parts), "{}");
}

#[test]
fn keys_for_values_give_the_template_back() {
    let template = "SELECT * FROM TABLE WHERE id = ID";
    let keys = ["TABLE", "ID", "E"];
    let parts = fragment(template, &keys).unwrap();
    assert_eq!(render(&parts, &keys).unwrap(), template);
}

#[test]
fn value_referred_to_twice_appears_twice() {
    let parts = fragment("{key} and {key} again", &["{key}"]).unwrap();
    assert_eq!(
        parts,
        vec![Part::Value(0), literal(" and "), Part::Value(0), literal(" again")]
    );
    assert_eq!(render(&parts, &["v"]).unwrap(), "v and v again");
    assert_eq!(format_template(&parts), "{}{}{}{}");
}

#[test]
fn adjacent_keys_leave_no_empty_literal() {
    let parts = fragment("abc", &["a", "b", "c"]).unwrap();
    assert_eq!(parts, vec![Part::Value(0), Part::Value(1), Part::Value(2)]);
    let parts = fragment("aa", &["a"]).unwrap();
    assert_eq!(parts, vec![Part::Value(0), Part::Value(0)]);
}

#[test]
fn key_at_the_end_leaves_no_trailing_literal() {
    let parts = fragment("Hello {name}", &["{name}"]).unwrap();
    assert_eq!(parts, vec![literal("Hello "), Part::Value(0)]);
}

#[test]
fn whole_template_as_key_leaves_one_reference() {
    let parts = fragment("key", &["key"]).unwrap();
    assert_eq!(parts, vec![Part::Value(0)]);
    assert_eq!(render(&parts, &[""]).unwrap(), "");
}

#[test]
fn matches_do_not_overlap() {
    let parts = fragment("aaaaa", &["aa"]).unwrap();
    assert_eq!(parts, vec![Part::Value(0), Part::Value(0), literal("a")]);
    let parts = fragment("ababa", &["aba"]).unwrap();
    assert_eq!(parts, vec![Part::Value(0), literal("ba")]);
}

#[test]
fn replaced_text_is_not_scanned_again() {
    // The value of the first rule holds the key of the second.
    let result = exact_format("x y", &[("x", "y"), ("y", "z")]).unwrap();
    assert_eq!(result, "y z");
    // A key that only the replacement would complete does not match.
    let result = exact_format("ab", &[("a", "b"), ("bb", "!")]).unwrap();
    assert_eq!(result, "bb");
}

#[test]
fn later_rule_sees_only_what_is_left() {
    let parts = fragment("Hello World", &["He", "Hello"]).unwrap();
    assert_eq!(parts, vec![Part::Value(0), literal("llo World")]);
    let parts = fragment("Hello World", &["Hello", "He"]).unwrap();
    assert_eq!(parts, vec![Part::Value(0), literal(" World")]);
}

#[test]
fn keys_match_whole_characters() {
    let result = exact_format("grüße, größe", &[("ß", "ss"), ("ö", "oe")]).unwrap();
    assert_eq!(result, "grüsse, groesse");
    let parts = fragment("→a→", &["→"]).unwrap();
    assert_eq!(parts, vec![Part::Value(0), literal("a"), Part::Value(0)]);
}

#[test]
fn empty_key_is_refused() {
    assert_eq!(fragment("abc", &[""]), Err(FormatError::EmptyKey(0)));
    assert_eq!(
        fragment("abc", &["a", "", "b", ""]),
        Err(FormatError::EmptyKey(1))
    );
    assert_eq!(
        exact_format("abc", &[("a", "1"), ("b", "2"), ("", "3")]),
        Err(FormatError::EmptyKey(2))
    );
    assert_eq!(exact_format("", &[("", "x")]), Err(FormatError::EmptyKey(0)));
}

#[test]
fn first_empty_key_is_found() {
    assert_eq!(find_empty_key(&[]), None);
    assert_eq!(find_empty_key(&["a", "bc"]), None);
    assert_eq!(find_empty_key(&["a", "", ""]), Some(1));
}

#[test]
fn missing_value_is_refused() {
    let parts = vec![literal("a"), Part::Value(1), Part::Value(3)];
    assert_eq!(render(&parts, &["x"]), Err(FormatError::MissingValue(1)));
    assert_eq!(
        render(&parts, &["x", "y", "z"]),
        Err(FormatError::MissingValue(3))
    );
    assert_eq!(render(&parts, &["x", "y", "z", "w"]).unwrap(), "ayw");
}

#[test]
fn no_parts_render_as_the_empty_text() {
    let parts: Vec<Part> = Vec::new();
    assert_eq!(render(&parts, &[]).unwrap(), "");
    assert_eq!(format_template(&parts), "");
}

#[test]
fn one_placeholder_for_each_part() {
    let parts = fragment("const user = { id: USERID, name: 'USERNAME' };", &["USERID", "USERNAME"])
        .unwrap();
    assert_eq!(
        parts,
        vec![
            literal("const user = { id: "),
            Part::Value(0),
            literal(", name: '"),
            Part::Value(1),
            literal("' };"),
        ]
    );
    assert_eq!(format_template(&parts), "{}{}{}{}{}");
}

#[test]
fn value_names_hold_the_position_in_base_ten() {
    assert_eq!(value_name(0), "__value0__");
    assert_eq!(value_name(7), "__value7__");
    assert_eq!(value_name(10), "__value10__");
    assert_eq!(value_name(4096), "__value4096__");
    assert_eq!(value_name(usize::MAX), format!("__value{}__", usize::MAX));
}

#[test]
fn one_rule_applies_to_literals_only() {
    let parts = vec![literal("a-a"), Part::Value(4), literal(""), literal("b")];
    let next = apply(&parts, "a", 9);
    assert_eq!(
        next,
        vec![
            Part::Value(9),
            literal("-"),
            Part::Value(9),
            Part::Value(4),
            literal(""),
            literal("b"),
        ]
    );
}

#[test]
fn split_appends_to_what_is_there() {
    let mut out = vec![Part::Value(2)];
    split_into(&chars("xAByAB"), &chars("AB"), 5, &mut out);
    assert_eq!(
        out,
        vec![Part::Value(2), literal("x"), Part::Value(5), literal("y"), Part::Value(5)]
    );
    let mut out: Vec<Part> = Vec::new();
    split_into(&chars("none"), &chars("AB"), 5, &mut out);
    assert_eq!(out, vec![literal("none")]);
    let mut out: Vec<Part> = Vec::new();
    split_into(&chars(""), &chars("AB"), 5, &mut out);
    assert_eq!(out, Vec::<Part>::new());
}

#[test]
fn search_finds_the_leftmost_match() {
    let text = chars("Hello World");
    assert_eq!(find_from(&text, &chars("o"), 0), Some(4));
    assert_eq!(find_from(&text, &chars("o"), 5), Some(7));
    assert_eq!(find_from(&text, &chars("o"), 8), None);
    assert_eq!(find_from(&text, &chars("World"), 0), Some(6));
    assert_eq!(find_from(&text, &chars("Worlds"), 0), None);
    assert_eq!(find_from(&text, &chars("Hello World!"), 0), None);
    assert_eq!(find_from(&text, &chars("d"), 10), Some(10));
    assert_eq!(find_from(&text, &chars("d"), 11), None);
    assert_eq!(find_from(&text, &chars("d"), 99), None);
    assert_eq!(find_from(&text, &chars(""), 3), Some(3));
}

#[test]
fn match_at_an_offset() {
    let text = chars("abcabc");
    assert!(matches_at(&text, &chars("abc"), 0));
    assert!(matches_at(&text, &chars("abc"), 3));
    assert!(!matches_at(&text, &chars("abc"), 1));
    assert!(!matches_at(&text, &chars("abc"), 4));
    assert!(!matches_at(&text, &chars("abc"), usize::MAX));
    assert!(matches_at(&text, &chars(""), 6));
    assert!(!matches_at(&text, &chars(""), 7));
    assert!(!matches_at(&text, &chars("abcabca"), 0));
}

#[test]
fn characters_and_text_convert_both_ways() {
    assert_eq!(to_chars("héllo"), vec!['h', 'é', 'l', 'l', 'o']);
    assert_eq!(to_chars(""), Vec::<char>::new());
    let v = to_chars("héllo wörld");
    assert_eq!(to_text(&v, 0, v.len()), "héllo wörld");
    assert_eq!(to_text(&v, 1, 5), "éllo");
    assert_eq!(to_text(&v, 3, 3), "");
}

#[test]
fn parts_can_be_copied() {
    let part = literal("text");
    assert_eq!(part.clone(), part);
    assert_eq!(Part::Value(3).clone(), Part::Value(3));
    assert_ne!(part, Part::Value(3));
}

#[test]
fn value_names_differ_with_the_position() {
    assert_ne!(value_name(1), value_name(11));
    assert_ne!(value_name(10), value_name(100));
    assert_ne!(value_name(12), value_name(21));
}
