use difflog::markdown::MarkdownBuilder;

#[test]
fn test_markdown_empty() {
    let md = MarkdownBuilder::default();
    assert_eq!(md.build(), "");
}

#[test]
fn test_markdown_heading_and_link() {
    let mut md = MarkdownBuilder::default();
    md.heading(2);
    md.append("Title");
    md.newline();
    md.link("here", "https://host/x");
    assert_eq!(md.build(), "## Title  \n[here](https://host/x)");
}

#[test]
fn test_markdown_appendln() {
    let mut md = MarkdownBuilder::default();
    md.reserve(64);
    md.appendln("a line");
    md.append("next");
    assert_eq!(md.build(), "a line  \nnext");
}

#[test]
fn test_markdown_heading_zero() {
    let mut md = MarkdownBuilder::default();
    md.heading(0);
    assert_eq!(md.build(), " ");
}
