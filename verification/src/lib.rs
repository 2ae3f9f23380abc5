//! A small library behind an editor-tooling service: a wiki-markup to
//! Markdown transpiler (headings, fenced code blocks with options, and four
//! admonition kinds), an in-line ticket-reference scanner, and the plain data
//! types the surrounding service exchanges with it.

pub mod atlassian_markup_transpiler;
pub mod config;
pub mod jira_resolver;
pub mod refrence_finder;
