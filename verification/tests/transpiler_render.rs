//! Per-node rendering: `to_markdown_string` and the appending renderer.

use refrences_lsp::atlassian_markup_transpiler::AdmotionKind;
use refrences_lsp::atlassian_markup_transpiler::MarkUpNode;

#[test]
fn render_plain_text_node() {
    let node = MarkUpNode::PlainText("hello".to_string());
    assert_eq!(node.to_markdown_string(), "hello\n");
}

#[test]
fn render_heading_node() {
    let node = MarkUpNode::Heading { level: 3, text: "Title".to_string() };
    assert_eq!(node.to_markdown_string(), "### Title\n");
}

#[test]
fn render_code_block_node_with_language() {
    let node = MarkUpNode::CodeBlock {
        language: Some("py".to_string()),
        content: "X\n".to_string(),
    };
    assert_eq!(node.to_markdown_string(), "```py\nX\n```\n");
}

#[test]
fn render_code_block_node_without_language() {
    let node = MarkUpNode::CodeBlock { language: None, content: "X\n".to_string() };
    assert_eq!(node.to_markdown_string(), "```\nX\n```\n");
}

#[test]
fn render_admonition_node_with_title() {
    let node = MarkUpNode::Admotion {
        kind: AdmotionKind::Note,
        title: Some("T".to_string()),
        show_icon: true,
        content: "C\n".to_string(),
    };
    assert_eq!(node.to_markdown_string(), "> [!NOTE]**T**C\n\n");
}

#[test]
fn render_admonition_node_ignores_show_icon() {
    let shown = MarkUpNode::Admotion {
        kind: AdmotionKind::Info,
        title: None,
        show_icon: true,
        content: "C".to_string(),
    };
    let hidden = MarkUpNode::Admotion {
        kind: AdmotionKind::Info,
        title: None,
        show_icon: false,
        content: "C".to_string(),
    };
    assert_eq!(shown.to_markdown_string(), hidden.to_markdown_string());
}

#[test]
fn push_content_appends_in_place() {
    let mut target = "before|".to_string();
    let node = MarkUpNode::Heading { level: 1, text: "T".to_string() };
    node.push_content_onto_string(&mut target);
    assert_eq!(target, "before|# T\n");
}
