use csp_solver::text::{chars_of, lines, push_decimal, push_signed_decimal, string_of};

fn lines_of(text: &str) -> Vec<String> {
    lines(&chars_of(text)).iter().map(|l| l.iter().collect()).collect()
}

#[test]
fn lines_are_those_of_the_standard_library() {
    for text in [
        "",
        "\n",
        "foo",
        "foo\n",
        "foo\nbar",
        "foo\r\nbar\r\n",
        "foo\nbar\n\r\nbaz\r",
        "\r\n\n\r",
        "a\rb\nc",
        "\n\n",
        "ünï\r\ncødé",
    ] {
        let expected: Vec<String> = text.lines().map(|l| l.to_string()).collect();
        assert_eq!(lines_of(text), expected, "{:?}", text);
    }
    assert_eq!(lines_of("foo\nbar\n\r\nbaz\r"), vec!["foo", "bar", "", "baz\r"]);
}

#[test]
fn decimal_notation() {
    let mut text = String::from("n=");
    push_decimal(&mut text, 0);
    push_decimal(&mut text, 7);
    push_decimal(&mut text, 1905);
    push_decimal(&mut text, u64::MAX);
    assert_eq!(text, "n=07190518446744073709551615");
    let mut text = String::new();
    push_signed_decimal(&mut text, -1);
    push_signed_decimal(&mut text, 20);
    push_signed_decimal(&mut text, i64::MIN);
    push_signed_decimal(&mut text, i64::MAX);
    assert_eq!(text, "-120-92233720368547758089223372036854775807");
}

#[test]
fn strings_of_characters() {
    let chars = chars_of("héllo wörld");
    assert_eq!(chars.len(), 11);
    assert_eq!(string_of(&chars, 0, 5), "héllo");
    assert_eq!(string_of(&chars, 6, 11), "wörld");
    assert_eq!(string_of(&chars, 3, 3), "");
}
