//! The ticket hover text and the description enrichment.

use refrences_lsp::config::Config;
use refrences_lsp::config::ConfigError;
use refrences_lsp::config::JiraConfig;
use refrences_lsp::jira_resolver::description_markdown;
use refrences_lsp::jira_resolver::JiraTicket;

#[test]
fn ticket_hover_text_layout() {
    let ticket = JiraTicket {
        key: "AUTO-1".to_string(),
        title: "A title".to_string(),
        description: "A description".to_string(),
        assignee: Some("Sam".to_string()),
        status: "Open".to_string(),
    };
    assert_eq!(
        ticket.to_string(),
        "\n# A title\n---\n\u{F15AB} Open | \u{F00ED} 2024-12-31 | \u{F2BD} Sam\n\n---\nA description\n"
    );
}

#[test]
fn ticket_hover_text_unassigned() {
    let ticket = JiraTicket {
        key: "AUTO-2".to_string(),
        title: "T".to_string(),
        description: "D".to_string(),
        assignee: None,
        status: "Done".to_string(),
    };
    assert_eq!(
        ticket.to_string(),
        "\n# T\n---\n\u{F15AB} Done | \u{F00ED} 2024-12-31 | \u{F2BD} Unassigned\n\n---\nD\n"
    );
}

#[test]
fn description_markdown_absent() {
    assert_eq!(description_markdown(None), "No description");
}

#[test]
fn description_markdown_appends_transpiled_text() {
    // The banner's own lines run through the transpiler too, as plain text.
    assert_eq!(
        description_markdown(Some("h1. T\n")),
        "h1. T\n\n\nHere is transpiled:\n\n# T\n\n\nHere is transpiled:\n\n"
    );
}

#[test]
fn description_markdown_falls_back_to_untranspiled_text_on_failure() {
    assert_eq!(
        description_markdown(Some("{code}\nx")),
        "{code}\nx\n\nHere is transpiled:\n\n{code}\nx\n\nHere is transpiled:\n\n"
    );
}

#[test]
fn config_holds_plain_values() {
    let config = Config {
        jira: JiraConfig {
            host: "https://example.invalid".to_string(),
            email: "dev@example.invalid".to_string(),
            api_token: "not-a-real-token".to_string(),
        },
    };
    assert_eq!(config.jira.email, "dev@example.invalid");
    assert_ne!(ConfigError::FileReadError, ConfigError::ParseError);
}
