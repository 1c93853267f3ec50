use exact_format::exact_format;

#[test]
fn test_basic_replacement() {
    let result = exact_format("Hello {name}", &[("{name}", "World")]).unwrap();
    assert_eq!(result, "Hello World");
}

#[test]
fn test_no_replacements() {
    let result = exact_format("Hello World", &[("NotFound", "Replacement")]).unwrap();
    assert_eq!(result, "Hello World");
}

#[test]
fn test_multiple_replacements() {
    let result = exact_format(
        "Hello {first} {last}",
        &[("{first}", "John"), ("{last}", "Doe")],
    )
    .unwrap();
    assert_eq!(result, "Hello John Doe");
}

#[test]
fn test_multiple_occurrences() {
    let result = exact_format("{key} and {key} again", &[("{key}", "value")]).unwrap();
    assert_eq!(result, "value and value again");
}

#[test]
fn test_nested_replacements() {
    // The table comes first, then the id.
    let result = exact_format(
        "SELECT * FROM TABLE WHERE id = ID",
        &[("TABLE", "users"), ("ID", "42")],
    )
    .unwrap();
    assert_eq!(result, "SELECT * FROM users WHERE id = 42");
}

#[test]
fn test_overlapping_keys() {
    // "Hello" contains "He": the order of the rules decides.
    let result = exact_format("Hello World", &[("He", "Hi"), ("Hello", "Greetings")]).unwrap();
    assert_eq!(result, "Hillo World");

    // The longer key first.
    let result = exact_format("Hello World", &[("Hello", "Greetings"), ("He", "Hi")]).unwrap();
    assert_eq!(result, "Greetings World");
}

#[test]
fn test_empty_replacements() {
    let result = exact_format("Hello {name}", &[("{name}", "")]).unwrap();
    assert_eq!(result, "Hello ");
}

#[test]
fn test_expression_as_value() {
    let number: i32 = 42;
    let result = exact_format(
        "The answer is {answer}",
        &[("{answer}", number.to_string().as_str())],
    )
    .unwrap();
    assert_eq!(result, "The answer is 42");
}

#[test]
fn test_escape_curly_braces() {
    // The template has curly braces of its own.
    let result = exact_format(
        "Function call: function({param})",
        &[("{param}", "value")],
    )
    .unwrap();
    assert_eq!(result, "Function call: function(value)");
}

#[test]
fn test_javascript_style_interpolation() {
    let user_id: i32 = 42;
    let user_name = "John";
    let result = exact_format(
        "const user = { id: USERID, name: 'USERNAME' };",
        &[("USERID", user_id.to_string().as_str()), ("USERNAME", user_name)],
    )
    .unwrap();
    assert_eq!(result, "const user = { id: 42, name: 'John' };");
}

#[test]
fn test_replacement_order() {
    // The leftmost match is found first.
    let result = exact_format("abc abc", &[("a", "X"), ("b", "Y")]).unwrap();
    assert_eq!(result, "XYc XYc");
}

#[test]
fn test_empty_string() {
    let result = exact_format("", &[("anything", "something")]).unwrap();
    assert_eq!(result, "");
}

#[test]
fn test_character_by_character() {
    let result = exact_format("abc", &[("a", "1"), ("b", "2"), ("c", "3")]).unwrap();
    assert_eq!(result, "123");
}

#[test]
fn test_positional_search() {
    // Each rule scans from left to right.
    let result = exact_format("Hello World", &[("o", "X")]).unwrap();
    assert_eq!(result, "HellX WXrld");
}
