//! Admonition grammar tests: the four kinds, their options, and the
//! first-match-wins tie-break.

use refrences_lsp::atlassian_markup_transpiler::parse_admotion;
use refrences_lsp::atlassian_markup_transpiler::AdmotionKind;
use refrences_lsp::atlassian_markup_transpiler::MarkUpNode;

fn admotion(
    kind: AdmotionKind,
    title: Option<&str>,
    show_icon: bool,
    content: &str,
) -> MarkUpNode {
    MarkUpNode::Admotion {
        kind,
        title: title.map(|t| t.to_string()),
        show_icon,
        content: content.to_string(),
    }
}

#[test]
fn parse_info_no_opts() {
    let (parsed, _) = parse_admotion("{info}\nSome content\n{info}", 0, AdmotionKind::Info)
        .unwrap()
        .unwrap();
    assert_eq!(parsed, admotion(AdmotionKind::Info, None, true, "Some content\n"));
}

#[test]
fn parse_info_only_title() {
    let (parsed, _) =
        parse_admotion("{info:title=My title}\nSome content\n{info}", 0, AdmotionKind::Info)
            .unwrap()
            .unwrap();
    assert_eq!(parsed, admotion(AdmotionKind::Info, Some("My title"), true, "Some content\n"));
}

#[test]
fn parse_info_only_icon() {
    let (parsed, _) =
        parse_admotion("{info:show_icon=false}\nSome content\n{info}", 0, AdmotionKind::Info)
            .unwrap()
            .unwrap();
    assert_eq!(parsed, admotion(AdmotionKind::Info, None, false, "Some content\n"));
}

#[test]
fn parse_info_all_opts() {
    let (parsed, _) = parse_admotion(
        "{info:title=My title|show_icon=false}\nSome content\n{info}",
        0,
        AdmotionKind::Info,
    )
    .unwrap()
    .unwrap();
    assert_eq!(parsed, admotion(AdmotionKind::Info, Some("My title"), false, "Some content\n"));
}

#[test]
fn parse_info_all_opts_reversed() {
    let (parsed, _) = parse_admotion(
        "{info:show_icon=false|title=My title}\nSome content\n{info}",
        0,
        AdmotionKind::Info,
    )
    .unwrap()
    .unwrap();
    assert_eq!(parsed, admotion(AdmotionKind::Info, Some("My title"), false, "Some content\n"));
}

#[test]
fn parse_warning_all_opts() {
    let (parsed, _) = parse_admotion(
        "{warning:title=My title|show_icon=false}\nSome content\n{warning}",
        0,
        AdmotionKind::Warning,
    )
    .unwrap()
    .unwrap();
    assert_eq!(
        parsed,
        admotion(AdmotionKind::Warning, Some("My title"), false, "Some content\n")
    );
}

#[test]
fn parse_tip_no_opts() {
    let (parsed, _) = parse_admotion("{tip}\nSome content\n{tip}", 0, AdmotionKind::Tip)
        .unwrap()
        .unwrap();
    assert_eq!(parsed, admotion(AdmotionKind::Tip, None, true, "Some content\n"));
}

#[test]
fn parse_note_no_opts() {
    let (parsed, _) = parse_admotion("{note}\nSome content\n{note}", 0, AdmotionKind::Note)
        .unwrap()
        .unwrap();
    assert_eq!(parsed, admotion(AdmotionKind::Note, None, true, "Some content\n"));
}

#[test]
fn parse_admotion_first_title_wins() {
    let (parsed, _) = parse_admotion("{warning:title=A|title=B}\nX\n{warning}", 0, AdmotionKind::Warning)
        .unwrap()
        .unwrap();
    assert_eq!(parsed, admotion(AdmotionKind::Warning, Some("A"), true, "X\n"));
}

#[test]
fn parse_admotion_first_show_icon_wins() {
    let (parsed, _) = parse_admotion(
        "{tip:show_icon=false|show_icon=true}\nX\n{tip}",
        0,
        AdmotionKind::Tip,
    )
    .unwrap()
    .unwrap();
    assert_eq!(parsed, admotion(AdmotionKind::Tip, None, false, "X\n"));
}

#[test]
fn parse_admotion_wrong_kind_misses() {
    assert_eq!(
        parse_admotion("{info}\nX\n{info}", 0, AdmotionKind::Tip).unwrap(),
        None
    );
}

#[test]
fn parse_admotion_longer_word_misses() {
    // `{information...` is not an info tag: the tag's `}` never comes.
    assert_eq!(
        parse_admotion("{information}\nX\n{info}", 0, AdmotionKind::Info).unwrap(),
        None
    );
}
