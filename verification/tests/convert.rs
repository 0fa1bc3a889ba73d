use backlog_mdbook::api::Project;
use backlog_mdbook::convert::{
    asset_dir_name, formatting_rule_message, invalid_domain_message, is_markdown_file,
    page_file_name, uses_markdown,
};
use backlog_mdbook::domain::is_valid_domain;

fn project(rule: &str) -> Project {
    Project {
        id: 1,
        project_key: "DOCS".to_string(),
        name: "Documents".to_string(),
        text_formatting_rule: rule.to_string(),
    }
}

#[test]
fn only_markdown_projects_are_converted() {
    assert!(uses_markdown(&project("markdown")));
    assert!(!uses_markdown(&project("backlog")));
    assert!(!uses_markdown(&project("Markdown")));
    assert!(!uses_markdown(&project("")));
}

#[test]
fn formatting_rule_message_names_project_and_rule() {
    assert_eq!(
        formatting_rule_message(&project("backlog")),
        "project DOCS's text format rule is not 'markdown' (backlog)."
    );
}

#[test]
fn invalid_domain_message_names_the_domain() {
    assert_eq!(invalid_domain_message("example.org"), "invalid Backlog domain: example.org");
}

#[test]
fn valid_domains_end_in_a_service_suffix() {
    assert!(is_valid_domain("example.backlog.com"));
    assert!(is_valid_domain("example.backlog.jp"));
    assert!(is_valid_domain(".backlog.jp"));
    assert!(!is_valid_domain("example.backlog.org"));
    assert!(!is_valid_domain("backlog.com"));
    assert!(!is_valid_domain("example.backlog.com.evil.net"));
    assert!(!is_valid_domain(""));
    assert!(!is_valid_domain("example.backlog.jpx"));
}

#[test]
fn markdown_files_have_the_extension_md() {
    assert!(is_markdown_file("book/src/12.md"));
    assert!(is_markdown_file("SUMMARY.md"));
    assert!(!is_markdown_file("book/src/12"));
    assert!(!is_markdown_file("notes.MD"));
    assert!(!is_markdown_file("md"));
    assert!(!is_markdown_file("a.md.bak"));
}

#[test]
fn page_file_and_asset_dir_use_the_id() {
    assert_eq!(page_file_name(42), "42.md");
    assert_eq!(page_file_name(0), "0.md");
    assert_eq!(asset_dir_name(42), "42");
    assert_eq!(asset_dir_name(1000000), "1000000");
}
