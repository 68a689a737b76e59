use art3a::helpers::{escape_html, in_range, json_quote};

#[test]
fn basic() {
    assert_eq!(escape_html("<&>\"'"), "&lt;&amp;&gt;&quot;&#x27;");
}

#[test]
fn unicode_kept() {
    assert_eq!(escape_html("😀 & <"), "😀 &amp; &lt;");
}

#[test]
fn already_escaped_becomes_double_escaped() {
    assert_eq!(escape_html("&amp;"), "&amp;amp;");
}

#[test]
fn script_injection_becomes_safe() {
    assert_eq!(escape_html("</script>"), "&lt;&#x2F;script&gt;");
}

#[test]
fn json_quote_escapes_controls() {
    assert_eq!(json_quote("Hello\x1b\n\"x\\"), "\"Hello\\u001b\\u000a\\\"x\\\\\"");
    assert_eq!(json_quote(""), "\"\"");
    assert_eq!(json_quote("plain"), "\"plain\"");
}

#[test]
fn in_range_clamps() {
    assert_eq!(in_range(5, 2, 10), 5);
    assert_eq!(in_range(1, 2, 10), 2);
    assert_eq!(in_range(12, 2, 10), 9);
    assert_eq!(in_range(3, 0, 0), 0);
}
