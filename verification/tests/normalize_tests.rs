use txml_processor::normalize::escape_xml;
use txml_processor::normalize::remove_indentation;
use txml_processor::normalize::unescape_xml;

#[test]
fn dedent_of_blank_body_is_empty() {
    assert_eq!(remove_indentation(""), "");
    assert_eq!(remove_indentation("   \n \t \n  "), "");
}

#[test]
fn dedent_of_single_line_body_trims_leading_whitespace() {
    assert_eq!(remove_indentation("\n    hello world"), "hello world");
    assert_eq!(remove_indentation("\n\thello"), "hello");
}

#[test]
fn dedent_strips_exactly_the_minimum_indentation() {
    // Mixed indentation: the minimum over non-blank lines (4) is stripped
    // from every non-blank line.
    let body = "\n    fn main()\n      {\n    }\n";
    assert_eq!(remove_indentation(body), "fn main()\n  {\n}");
}

#[test]
fn dedent_strips_carriage_returns_like_lines() {
    // A CRLF body dedents as if each line had its trailing carriage
    // return removed, the way line splitting treats \r\n as one
    // terminator.
    let body = "\r\n    a\r\n      b\r\n";
    assert_eq!(remove_indentation(body), "a\n  b");
}

#[test]
fn dedent_turns_blank_lines_into_bare_newlines() {
    let body = "\n  a\n   \t\n  b\n";
    assert_eq!(remove_indentation(body), "a\n\nb");
}

#[test]
fn escape_rewrites_the_five_special_characters() {
    assert_eq!(escape_xml("a<b>&\"'z"), "a&lt;b&gt;&amp;&quot;&apos;z");
    assert_eq!(escape_xml("plain"), "plain");
}

#[test]
fn unescape_rewrites_the_five_entities() {
    assert_eq!(unescape_xml("a&lt;b&gt;&amp;&quot;&apos;z"), "a<b>&\"'z");
    assert_eq!(unescape_xml("plain"), "plain");
}

#[test]
fn unescape_inverts_escape_on_entity_free_text() {
    let cases = [
        "fn main() { println!(\"Hola, mundo!\"); }",
        "a < b && b > c",
        "'quoted' & \"double\"",
        "",
    ];
    for s in cases {
        assert_eq!(unescape_xml(&escape_xml(s)), s);
    }
}

#[test]
fn escape_then_unescape_differs_on_entity_like_text() {
    // Text already holding an entity form is not recovered: the inverse
    // law holds only of text free of literal ambiguity.
    let s = "&lt;";
    assert_eq!(unescape_xml(&escape_xml(s)), "<");
}
