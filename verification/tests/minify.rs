//! Minification: whitespace and comments go, strings stay as they are.

use cjson_rs::minify;

#[test]
fn removes_json_whitespace() {
    assert_eq!(minify("{ \"key\":\ttrue\r\n    }"), "{\"key\":true}");
}

#[test]
fn removes_single_and_multiline_comments() {
    assert_eq!(minify("{// comment\n/* another */\"key\":true}"), "{\"key\":true}");
    assert_eq!(minify("{/* unfinished"), "{");
}

#[test]
fn preserves_strings_and_escaped_quotes() {
    assert_eq!(minify(r#" { "text": " // not a comment \" and spaces " } "#), r#"{"text":" // not a comment \" and spaces "}"#);
}

#[test]
fn preserves_an_unclosed_string() {
    assert_eq!(minify("\"\\"), "\"\\");
}

#[test]
fn mirrors_cjsons_lone_slash_behavior() {
    assert_eq!(minify("8 / 5\n"), "85");
}

#[test]
fn unclosed_multiline_comment_is_stripped() {
    assert_eq!(minify("/* bla"), "");
}

#[test]
fn pending_escape_survives() {
    // A string literal with a dangling backslash is left alone.
    assert_eq!(minify(r#""\"#), r#""\"#);
}

#[test]
fn removes_single_line_comments() {
    let input = "{// this is {} \"some kind\" of [] comment /*, don't you see\n}";
    assert_eq!(minify(input), "{}");
}

#[test]
fn removes_spaces_tabs_and_crlf() {
    assert_eq!(minify("{ \"key\":\ttrue\r\n    }"), "{\"key\":true}");
}

#[test]
fn removes_multiline_comments() {
    let input = "{/* this is\n a /* multi\n //line \n {comment \"\\\" */}";
    assert_eq!(minify(input), "{}");
}

#[test]
fn does_not_modify_string_contents() {
    // Whitespace and escaped quotes inside a JSON string are preserved.
    let input = r#""this is a string \" \t bla""#;
    assert_eq!(minify(input), input);
}

#[test]
fn empty_input_and_trivial_documents() {
    assert_eq!(minify(""), "");
    assert_eq!(minify("{}"), "{}");
    assert_eq!(minify("{ \"key\" : true }"), "{\"key\":true}");
}

#[test]
fn minify_keeps_non_ascii_text_and_form_feeds() {
    assert_eq!(minify("[ \"ü\" ,\u{c} 1 ]"), "[\"ü\",\u{c}1]");
}

#[test]
fn multiline_comment_end_needs_its_slash() {
    assert_eq!(minify("a/* x **/b/* y * / z */c"), "abc");
}

#[test]
fn minify_is_idempotent_on_an_example() {
    let once = minify("{ /* c */ \"a\" : [ 1 , 2 ] // tail\n }");
    assert_eq!(once, "{\"a\":[1,2]}");
    assert_eq!(minify(&once), once);
}

#[test]
fn minifying_twice_changes_nothing_more() {
    let inputs = [
        "{ \"a\" : [1, 2, 3] , /* note */ \"b\" : \"x y\\\" z\" } // end",
        "[ \"unterminated \\",
        "/ lone / slashes /* open comment",
        "\t\r\n{\"k\": \"v\\\\\"}\n",
    ];
    for input in inputs {
        let once = minify(input);
        assert_eq!(minify(&once), once, "{input:?}");
    }
}
