//! Whole-document transpilation: headings, fenced blocks, admonitions,
//! plain-text fallback, and the structured errors.

use refrences_lsp::atlassian_markup_transpiler::transpile_atlassian_markup_to_markdown;
use refrences_lsp::atlassian_markup_transpiler::parse_atlassian_markup;
use refrences_lsp::atlassian_markup_transpiler::MarkUpNode;
use refrences_lsp::atlassian_markup_transpiler::TranspileError;
use refrences_lsp::atlassian_markup_transpiler::TranspileErrorKind;

#[test]
fn translates_heading_h1() {
    let rendered = transpile_atlassian_markup_to_markdown("h1. Some heading\n").unwrap();
    assert_eq!(rendered, "# Some heading\n");
}

#[test]
fn translates_heading_h2() {
    let rendered = transpile_atlassian_markup_to_markdown("h2. Some heading\n").unwrap();
    assert_eq!(rendered, "## Some heading\n");
}

#[test]
fn translates_heading_h3() {
    let rendered = transpile_atlassian_markup_to_markdown("h3. Some heading\n").unwrap();
    assert_eq!(rendered, "### Some heading\n");
}

#[test]
fn translates_heading_h4() {
    let rendered = transpile_atlassian_markup_to_markdown("h4. Some heading\n").unwrap();
    assert_eq!(rendered, "#### Some heading\n");
}

#[test]
fn translates_heading_h5() {
    let rendered = transpile_atlassian_markup_to_markdown("h5. Some heading\n").unwrap();
    assert_eq!(rendered, "##### Some heading\n");
}

#[test]
fn translates_heading_h6() {
    let rendered = transpile_atlassian_markup_to_markdown("h6. Some heading\n").unwrap();
    assert_eq!(rendered, "###### Some heading\n");
}

#[test]
fn translates_heading_with_empty_text() {
    let rendered = transpile_atlassian_markup_to_markdown("h1.\n").unwrap();
    assert_eq!(rendered, "# \n");
}

#[test]
fn heading_with_level_outside_range_is_plain_text() {
    let rendered = transpile_atlassian_markup_to_markdown("h7. Some heading\n").unwrap();
    assert_eq!(rendered, "h7. Some heading\n");
}

#[test]
fn translates_code_block_without_language() {
    let rendered = transpile_atlassian_markup_to_markdown("{code}\nHello\n{code}").unwrap();
    assert_eq!(rendered, "```\nHello\n```\n");
}

#[test]
fn translates_code_block_with_language() {
    let rendered =
        transpile_atlassian_markup_to_markdown("{code:language=python}\nprint(1)\n{code}")
            .unwrap();
    assert!(rendered.starts_with("```python"));
    assert_eq!(rendered, "```python\nprint(1)\n```\n");
}

#[test]
fn translates_info_admonition_without_title() {
    let rendered = transpile_atlassian_markup_to_markdown("{info}\nX\n{info}").unwrap();
    assert!(rendered.starts_with("> [!INFO]"));
    assert_eq!(rendered, "> [!INFO]X\n\n");
}

#[test]
fn translates_warning_admonition_show_icon_has_no_effect() {
    let rendered =
        transpile_atlassian_markup_to_markdown("{warning:title=T|show_icon=false}\nX\n{warning}")
            .unwrap();
    assert!(rendered.starts_with("> [!WARNING]"));
    assert_eq!(rendered, "> [!WARNING]**T**X\n\n");
}

#[test]
fn translates_tip_and_note_markers() {
    assert_eq!(
        transpile_atlassian_markup_to_markdown("{tip}\nX\n{tip}").unwrap(),
        "> [!TIP]X\n\n"
    );
    assert_eq!(
        transpile_atlassian_markup_to_markdown("{note}\nX\n{note}").unwrap(),
        "> [!NOTE]X\n\n"
    );
}

#[test]
fn duplicate_title_options_first_wins() {
    let rendered =
        transpile_atlassian_markup_to_markdown("{warning:title=A|title=B}\nX\n{warning}")
            .unwrap();
    assert_eq!(rendered, "> [!WARNING]**A**X\n\n");
}

#[test]
fn duplicate_language_options_first_wins() {
    let rendered =
        transpile_atlassian_markup_to_markdown("{code:language=a|language=b}\nY\n{code}").unwrap();
    assert_eq!(rendered, "```a\nY\n```\n");
}

#[test]
fn blocks_and_plain_lines_render_in_document_order() {
    let markup = "h1. T\nplain\n{code}\nbody\n{code}\nmore\n";
    let rendered = transpile_atlassian_markup_to_markdown(markup).unwrap();
    assert_eq!(rendered, "# T\nplain\n```\nbody\n```\nmore\n");
    let nodes = parse_atlassian_markup(markup).unwrap();
    assert_eq!(nodes.len(), 4);
    assert!(matches!(nodes[0], MarkUpNode::Heading { level: 1, .. }));
    assert!(matches!(nodes[1], MarkUpNode::PlainText(_)));
    assert!(matches!(nodes[2], MarkUpNode::CodeBlock { .. }));
    assert!(matches!(nodes[3], MarkUpNode::PlainText(_)));
}

#[test]
fn empty_input_renders_empty() {
    assert_eq!(transpile_atlassian_markup_to_markdown("").unwrap(), "");
}

#[test]
fn plain_text_passes_through_with_trailing_newline() {
    assert_eq!(
        transpile_atlassian_markup_to_markdown("just text").unwrap(),
        "just text\n"
    );
    assert_eq!(
        transpile_atlassian_markup_to_markdown("two\nlines\n").unwrap(),
        "two\nlines\n"
    );
}

#[test]
fn code_block_content_keeps_inner_lines_verbatim() {
    let rendered =
        transpile_atlassian_markup_to_markdown("{code}\nline one\n  line two\n{code}").unwrap();
    assert_eq!(rendered, "```\nline one\n  line two\n```\n");
}

#[test]
fn code_block_trailing_indent_before_close_tag_is_trimmed() {
    let rendered = transpile_atlassian_markup_to_markdown("{code}\nX\n  {code}").unwrap();
    assert_eq!(rendered, "```\nX\n```\n");
}

#[test]
fn unterminated_code_block_fails() {
    let err = transpile_atlassian_markup_to_markdown("{code}\nbody").unwrap_err();
    assert_eq!(
        err,
        TranspileError { kind: TranspileErrorKind::UnterminatedBlock, at: 0 }
    );
}

#[test]
fn unterminated_admonition_fails() {
    let err = transpile_atlassian_markup_to_markdown("{info}\nbody").unwrap_err();
    assert_eq!(err.kind, TranspileErrorKind::UnterminatedBlock);
}

#[test]
fn unknown_option_fails() {
    let err = transpile_atlassian_markup_to_markdown("{code:foo=bar}\nx\n{code}").unwrap_err();
    assert_eq!(
        err,
        TranspileError { kind: TranspileErrorKind::UnknownOption, at: 6 }
    );
}

#[test]
fn malformed_boolean_option_fails() {
    let err =
        transpile_atlassian_markup_to_markdown("{code:linenumbers=maybe}\nx\n{code}").unwrap_err();
    assert_eq!(err.kind, TranspileErrorKind::MalformedOptionValue);
}

#[test]
fn malformed_language_option_fails() {
    let err =
        transpile_atlassian_markup_to_markdown("{code:language=1py}\nx\n{code}").unwrap_err();
    assert_eq!(err.kind, TranspileErrorKind::MalformedOptionValue);
}

#[test]
fn oversized_firstline_option_fails() {
    let err = transpile_atlassian_markup_to_markdown(
        "{code:firstline=99999999999999999999}\nx\n{code}",
    )
    .unwrap_err();
    assert_eq!(err.kind, TranspileErrorKind::MalformedOptionValue);
}

#[test]
fn firstline_at_u64_limit_is_accepted() {
    let rendered = transpile_atlassian_markup_to_markdown(
        "{code:firstline=18446744073709551615}\nx\n{code}",
    )
    .unwrap();
    assert_eq!(rendered, "```\nx\n```\n");
}

#[test]
fn malformed_show_icon_option_fails() {
    let err =
        transpile_atlassian_markup_to_markdown("{info:show_icon=yes}\nx\n{info}").unwrap_err();
    assert_eq!(err.kind, TranspileErrorKind::MalformedOptionValue);
}

#[test]
fn empty_option_list_is_accepted() {
    let rendered = transpile_atlassian_markup_to_markdown("{code:}\nx\n{code}").unwrap();
    assert_eq!(rendered, "```\nx\n```\n");
}
