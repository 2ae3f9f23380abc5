//! Block-grammar tests: headings and code blocks parsed in isolation.

use refrences_lsp::atlassian_markup_transpiler::parse_code_block;
use refrences_lsp::atlassian_markup_transpiler::parse_heading;
use refrences_lsp::atlassian_markup_transpiler::MarkUpNode;

#[test]
fn parse_heading_h1() {
    let (parsed, _) = parse_heading("h1. Some heading\n", 0).unwrap();
    assert!(matches!(parsed, MarkUpNode::Heading { level: 1, .. }));
}

#[test]
fn parse_heading_h2() {
    let (parsed, _) = parse_heading("h2. Some heading\n", 0).unwrap();
    assert!(matches!(parsed, MarkUpNode::Heading { level: 2, .. }));
}

#[test]
fn parse_heading_h3() {
    let (parsed, _) = parse_heading("h3. Some heading\n", 0).unwrap();
    assert!(matches!(parsed, MarkUpNode::Heading { level: 3, .. }));
}

#[test]
fn parse_heading_h4() {
    let (parsed, _) = parse_heading("h4. Some heading\n", 0).unwrap();
    assert!(matches!(parsed, MarkUpNode::Heading { level: 4, .. }));
}

#[test]
fn parse_heading_h5() {
    let (parsed, _) = parse_heading("h5. Some heading\n", 0).unwrap();
    assert!(matches!(parsed, MarkUpNode::Heading { level: 5, .. }));
}

#[test]
fn parse_heading_h6() {
    let (parsed, _) = parse_heading("h6. Some heading\n", 0).unwrap();
    assert!(matches!(parsed, MarkUpNode::Heading { level: 6, .. }));
}

#[test]
fn parse_heading_keeps_text() {
    let (parsed, next) = parse_heading("h2. Some heading\nrest", 0).unwrap();
    assert_eq!(
        parsed,
        MarkUpNode::Heading { level: 2, text: "Some heading".to_string() }
    );
    assert_eq!(next, 17);
}

#[test]
fn parse_heading_rejects_level_outside_range() {
    assert!(parse_heading("h7. Some heading\n", 0).is_none());
    assert!(parse_heading("h0. Some heading\n", 0).is_none());
}

#[test]
fn parse_heading_needs_terminator() {
    assert!(parse_heading("h1. Some heading", 0).is_none());
}

#[test]
fn parse_codeblock_all_params() {
    let markup = "{code:title=This is my title|linenumbers=true|language=python|firstline=0001|collapse=true}
    This is my code
    {code}
    ";
    let (parsed, _) = parse_code_block(markup, 0).unwrap().unwrap();
    assert_eq!(
        parsed,
        MarkUpNode::CodeBlock {
            language: Some("python".to_string()),
            content: "This is my code\n".to_string(),
        }
    );
}

#[test]
fn parse_codeblock_with_title_language() {
    let markup = "{code:title=This|language=python}
    This is my code
    {code}
    ";
    let (parsed, _) = parse_code_block(markup, 0).unwrap().unwrap();
    assert_eq!(
        parsed,
        MarkUpNode::CodeBlock {
            language: Some("python".to_string()),
            content: "This is my code\n".to_string(),
        }
    );
}

#[test]
fn parse_codeblock_with_language() {
    let markup = "{code:language=python}
    This is my code
    {code}
    ";
    let (parsed, _) = parse_code_block(markup, 0).unwrap().unwrap();
    assert_eq!(
        parsed,
        MarkUpNode::CodeBlock {
            language: Some("python".to_string()),
            content: "This is my code\n".to_string(),
        }
    );
}

#[test]
fn parse_codeblock_no_params() {
    let markup = "{code}
    This is my code
    {code}
    ";
    let (parsed, _) = parse_code_block(markup, 0).unwrap().unwrap();
    assert_eq!(
        parsed,
        MarkUpNode::CodeBlock { language: None, content: "This is my code\n".to_string() }
    );
}

#[test]
fn parse_codeblock_first_language_wins() {
    let markup = "{code:language=a|language=b}\nY\n{code}";
    let (parsed, _) = parse_code_block(markup, 0).unwrap().unwrap();
    assert_eq!(
        parsed,
        MarkUpNode::CodeBlock { language: Some("a".to_string()), content: "Y\n".to_string() }
    );
}

#[test]
fn parse_codeblock_title_as_last_option() {
    let (parsed, _) = parse_code_block("{code:title=T}\nX\n{code}", 0).unwrap().unwrap();
    assert_eq!(
        parsed,
        MarkUpNode::CodeBlock { language: None, content: "X\n".to_string() }
    );
}

#[test]
fn parse_codeblock_misses_on_other_text() {
    assert_eq!(parse_code_block("{codex}\nY\n{code}", 0).unwrap(), None);
    assert_eq!(parse_code_block("plain text", 0).unwrap(), None);
}

#[test]
fn parse_codeblock_tolerates_whitespace_before_brace() {
    let (parsed, _) = parse_code_block("{code  }\nX\n{code}", 0).unwrap().unwrap();
    assert_eq!(
        parsed,
        MarkUpNode::CodeBlock { language: None, content: "X\n".to_string() }
    );
}
